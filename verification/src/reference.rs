//! Content addressing: node references, data nodes and the reference graph.

use vstd::prelude::*;
use vstd::string::*;
use crate::constants::hash_algorithms;
use crate::error::{Result, UnivError};
use crate::util::hash::{
    hash_spec, hex_encode, hex_encoding, sha256_digest, ContentHash, HashProvider,
};
use crate::util::string_map::{
    entries_insert, key_position, key_value, keys_distinct, lemma_insert_distinct,
    lemma_key_value_insert, StringMap,
};
use crate::util::text::{
    lemma_string_position_unique, str_eq, string_position, strings_distinct,
};
use crate::util::validation::CycleDetector;

verus! {

/// Whether a reference points inside or outside the container.
#[derive(Debug, Clone, Copy, PartialEq, Eq, Hash, Structural)]
pub enum ReferenceType {
    /// A node of the same container.
    Internal,
    /// An outside resource named by a URN.
    External,
}

/// A reference from one node to another, or to an outside resource.
#[derive(Debug, Clone, PartialEq)]
pub struct NodeReference {
    /// Identifier of the target.
    pub target_id: String,
    /// Inside or outside.
    pub ref_type: ReferenceType,
    /// Hash algorithm code of the content hash.
    pub hash_algorithm: u8,
    /// Content hash of the target.
    pub content_hash: Vec<u8>,
    /// URN of an outside resource.
    pub urn: Option<String>,
}

impl NodeReference {
    /// A reference to a node of the same container.
    pub fn internal(target_id: String, hash_algorithm: u8, content_hash: Vec<u8>) -> (r: Self)
        ensures
            r.target_id == target_id,
            r.ref_type == ReferenceType::Internal,
            r.hash_algorithm == hash_algorithm,
            r.content_hash == content_hash,
            r.urn is None,
    {
        NodeReference {
            target_id,
            ref_type: ReferenceType::Internal,
            hash_algorithm,
            content_hash,
            urn: None,
        }
    }

    /// A reference to the outside resource `urn`: its content hash is the SHA-256 digest of the
    /// URN's bytes, and its target identifier that digest in hex.
    pub fn external(urn: String) -> (r: Result<Self>)
        ensures
            r matches Ok(n) && n.ref_type == ReferenceType::External
                && n.hash_algorithm == hash_algorithms::SHA256
                && n.content_hash@ == sha256_digest(vstd::utf8::encode_utf8(urn@))
                && n.target_id@ == hex_encoding(sha256_digest(vstd::utf8::encode_utf8(urn@)))
                && n.urn == Some(urn),
    {
        let multihash = match HashProvider::hash(hash_algorithms::SHA256, urn.as_str().as_bytes()) {
            Ok(h) => h,
            Err(e) => {
                return Err(e);
            },
        };
        let target_id = hex_encode(multihash.as_slice());
        Ok(NodeReference {
            target_id,
            ref_type: ReferenceType::External,
            hash_algorithm: hash_algorithms::SHA256,
            content_hash: multihash,
            urn: Some(urn),
        })
    }

    /// Whether the reference points outside the container.
    pub fn is_external(&self) -> (r: bool)
        ensures
            r == (self.ref_type == ReferenceType::External),
    {
        self.ref_type == ReferenceType::External
    }

    /// The content hash of the target.
    pub fn get_content_hash(&self) -> (r: ContentHash)
        ensures
            r.algorithm == self.hash_algorithm,
            r.hash@ == self.content_hash@,
    {
        ContentHash::from_hash(self.hash_algorithm, self.content_hash.clone())
    }
}


/// The references of the given kind, in order.
pub open spec fn refs_of_type(refs: Seq<NodeReference>, kind: ReferenceType) -> Seq<NodeReference>
    decreases refs.len(),
{
    if refs.len() == 0 {
        Seq::empty()
    } else {
        let prev = refs_of_type(refs.drop_last(), kind);
        if refs.last().ref_type == kind {
            prev.push(refs.last())
        } else {
            prev
        }
    }
}

fn collect_refs_of_type(refs: &Vec<NodeReference>, kind: ReferenceType) -> (r: Vec<&NodeReference>)
    ensures
        r@.map_values(|x: &NodeReference| *x) == refs_of_type(refs@, kind),
{
    let mut out: Vec<&NodeReference> = Vec::new();
    let mut i: usize = 0;
    assert(refs@.take(0) =~= Seq::<NodeReference>::empty());
    while i < refs.len()
        invariant
            i <= refs@.len(),
            out@.map_values(|x: &NodeReference| *x) == refs_of_type(refs@.take(i as int), kind),
        decreases refs@.len() - i,
    {
        assert(refs@.take(i + 1).drop_last() =~= refs@.take(i as int));
        let ghost before = out@.map_values(|x: &NodeReference| *x);
        if refs[i].ref_type == kind {
            out.push(&refs[i]);
            assert(out@.map_values(|x: &NodeReference| *x) =~= before.push(refs@[i as int]));
        }
        i += 1;
    }
    assert(refs@.take(i as int) =~= refs@);
    out
}

/// A node of data, named by the hex text of its content hash.
#[derive(Debug, Clone)]
pub struct DataNode {
    /// Identifier: the hex text of the content hash.
    pub id: String,
    /// The data.
    pub data: Vec<u8>,
    /// References to other nodes and resources, in the order added.
    pub references: Vec<NodeReference>,
    /// Content hash of the data.
    pub content_hash: ContentHash,
    /// Metadata, by key.
    pub metadata: StringMap<String>,
}

impl View for DataNode {
    type V = DataNode;

    open spec fn view(&self) -> DataNode {
        *self
    }
}

/// Whether the data of `n` matches its content hash.
pub open spec fn node_verifies(n: DataNode) -> bool {
    hash_spec(n.content_hash.algorithm, n.data@) == Some(n.content_hash.hash@)
}

impl DataNode {
    /// A node holding `data`, hashed with the given algorithm, with no references or metadata.
    pub fn new(data: Vec<u8>, hash_algorithm: u8) -> (r: Result<Self>)
        ensures
            match hash_spec(hash_algorithm, data@) {
                Some(h) => r matches Ok(n) && n.data == data && n.content_hash.algorithm
                    == hash_algorithm && n.content_hash.hash@ == h && n.id@ == hex_encoding(h)
                    && n.references@.len() == 0 && n.metadata@.len() == 0,
                None => r matches Err(UnivError::UnsupportedHashAlgorithm { algorithm: a })
                    && a == hash_algorithm,
            },
    {
        let content_hash = ContentHash::new(hash_algorithm, data.as_slice())?;
        let id = content_hash.hex();
        Ok(DataNode {
            id,
            data,
            references: Vec::new(),
            content_hash,
            metadata: StringMap::new(),
        })
    }

    /// Adds a reference to `target_node`, by its identifier and content hash.
    pub fn add_internal_reference(&mut self, target_node: &DataNode)
        ensures
            final(self).references@.len() == old(self).references@.len() + 1,
            final(self).references@.drop_last() == old(self).references@,
            final(self).references@.last().target_id@ == target_node.id@,
            final(self).references@.last().ref_type == ReferenceType::Internal,
            final(self).references@.last().hash_algorithm == target_node.content_hash.algorithm,
            final(self).references@.last().content_hash@ == target_node.content_hash.hash@,
            final(self).references@.last().urn is None,
            final(self).id == old(self).id,
            final(self).data == old(self).data,
            final(self).content_hash == old(self).content_hash,
            final(self).metadata@ == old(self).metadata@,
    {
        let reference = NodeReference::internal(
            target_node.id.clone(),
            target_node.content_hash.algorithm,
            target_node.content_hash.hash.clone(),
        );
        self.references.push(reference);
        assert(self.references@.drop_last() =~= old(self).references@);
    }

    /// Adds a reference to the outside resource `urn`.
    pub fn add_external_reference(&mut self, urn: String) -> (r: Result<()>)
        ensures
            r is Ok,
            final(self).references@.len() == old(self).references@.len() + 1,
            final(self).references@.drop_last() == old(self).references@,
            final(self).references@.last().ref_type == ReferenceType::External,
            final(self).references@.last().hash_algorithm == hash_algorithms::SHA256,
            final(self).references@.last().content_hash@ == sha256_digest(
                vstd::utf8::encode_utf8(urn@),
            ),
            final(self).references@.last().target_id@ == hex_encoding(
                sha256_digest(vstd::utf8::encode_utf8(urn@)),
            ),
            final(self).references@.last().urn == Some(urn),
            final(self).id == old(self).id,
            final(self).data == old(self).data,
            final(self).content_hash == old(self).content_hash,
            final(self).metadata@ == old(self).metadata@,
    {
        let reference = NodeReference::external(urn)?;
        self.references.push(reference);
        assert(self.references@.drop_last() =~= old(self).references@);
        Ok(())
    }

    /// Checks the data against the content hash.
    pub fn verify(&self) -> (r: Result<()>)
        ensures
            r is Ok <==> node_verifies(*self),
            r matches Err(e) ==> e is HashMismatch || e is UnsupportedHashAlgorithm,
    {
        self.content_hash.verify(self.data.as_slice())
    }

    /// The references to nodes of the same container, in order.
    pub fn get_internal_references(&self) -> (r: Vec<&NodeReference>)
        ensures
            r@.map_values(|x: &NodeReference| *x) == refs_of_type(
                self.references@,
                ReferenceType::Internal,
            ),
    {
        collect_refs_of_type(&self.references, ReferenceType::Internal)
    }

    /// The references to outside resources, in order.
    pub fn get_external_references(&self) -> (r: Vec<&NodeReference>)
        ensures
            r@.map_values(|x: &NodeReference| *x) == refs_of_type(
                self.references@,
                ReferenceType::External,
            ),
    {
        collect_refs_of_type(&self.references, ReferenceType::External)
    }

    /// Sets the metadata `key` to `value`.
    pub fn set_metadata(&mut self, key: String, value: String)
        ensures
            final(self).metadata@ == entries_insert(old(self).metadata@, key@, value@),
            final(self).id == old(self).id,
            final(self).data == old(self).data,
            final(self).references == old(self).references,
            final(self).content_hash == old(self).content_hash,
    {
        self.metadata.insert(key, value);
    }

    /// The metadata under `key`.
    pub fn get_metadata(&self, key: &str) -> (r: Option<&String>)
        ensures
            match key_value(self.metadata@, key@) {
                Some(w) => r matches Some(v) && v@ == w,
                None => r is None,
            },
    {
        self.metadata.get(key)
    }
}

/// A set of node identifiers, kept in the order they were added.
#[derive(Debug)]
pub struct NodeIdSet {
    ids: Vec<String>,
}

impl View for NodeIdSet {
    type V = Seq<Seq<char>>;

    closed spec fn view(&self) -> Seq<Seq<char>> {
        self.ids@.map_values(|s: String| s@)
    }
}

/// `s` with `x` added at the end unless already present.
pub open spec fn set_add(s: Seq<Seq<char>>, x: Seq<char>) -> Seq<Seq<char>> {
    if s.contains(x) {
        s
    } else {
        s.push(x)
    }
}

impl NodeIdSet {
    #[verifier::type_invariant]
    closed spec fn inv(self) -> bool {
        strings_distinct(self@)
    }

    /// An empty set.
    pub fn new() -> (r: Self)
        ensures
            r@ == Seq::<Seq<char>>::empty(),
    {
        let s = NodeIdSet { ids: Vec::new() };
        assert(s@ =~= Seq::<Seq<char>>::empty());
        s
    }

    /// Number of identifiers; they are distinct.
    pub fn len(&self) -> (r: usize)
        ensures
            r == self@.len(),
            strings_distinct(self@),
    {
        proof {
            use_type_invariant(self);
        }
        self.ids.len()
    }

    /// Whether the set is empty.
    pub fn is_empty(&self) -> (r: bool)
        ensures
            r == (self@.len() == 0),
    {
        self.ids.len() == 0
    }

    /// Whether `id` is in the set.
    pub fn contains(&self, id: &str) -> (r: bool)
        ensures
            r == self@.contains(id@),
            strings_distinct(self@),
    {
        proof {
            use_type_invariant(self);
        }
        let mut i: usize = 0;
        while i < self.ids.len()
            invariant
                i <= self.ids@.len(),
                strings_distinct(self@),
                forall|j: int| 0 <= j < i ==> self.ids@[j]@ != id@,
            decreases self.ids@.len() - i,
        {
            if str_eq(self.ids[i].as_str(), id) {
                assert(self@[i as int] == id@);
                return true;
            }
            i += 1;
        }
        proof {
            assert forall|j: int| 0 <= j < self@.len() implies self@[j] != id@ by {
                assert(self@[j] == self.ids@[j]@);
            }
        }
        false
    }

    /// Adds `id`; tells whether it was new.
    pub fn insert(&mut self, id: String) -> (r: bool)
        ensures
            final(self)@ == set_add(old(self)@, id@),
            r == !old(self)@.contains(id@),
            strings_distinct(final(self)@),
    {
        if self.contains(id.as_str()) {
            return false;
        }
        let ghost before = self@;
        let ghost idv = id@;
        let mut ids = Vec::new();
        std::mem::swap(&mut ids, &mut self.ids);
        ids.push(id);
        proof {
            let v = ids@.map_values(|s: String| s@);
            assert(v =~= before.push(idv));
            assert forall|i: int, j: int| 0 <= i < v.len() && 0 <= j < v.len() && i != j implies v[i]
                != v[j] by {
                if i < before.len() && j < before.len() {
                } else if i == before.len() {
                    assert(before[j] == v[j]);
                } else {
                    assert(before[i] == v[i]);
                }
            }
        }
        self.ids = ids;
        true
    }

    /// The identifier at position `i`.
    pub fn id_at(&self, i: usize) -> (r: &str)
        requires
            i < self@.len(),
        ensures
            r@ == self@[i as int],
    {
        self.ids[i].as_str()
    }
}


impl Clone for NodeIdSet {
    /// A set with the same identifiers in the same order.
    fn clone(&self) -> (r: Self)
        ensures
            r@ == self@,
    {
        proof {
            use_type_invariant(self);
        }
        let ids = self.ids.clone();
        assert(ids@ =~= self.ids@);
        NodeIdSet { ids }
    }
}

/// Whether `id` names a node of `g`.
pub open spec fn is_node(g: ReferenceGraph, id: Seq<char>) -> bool {
    key_position(g.node_entries(), id) is Some
}

/// The identifiers that node `a` refers to, as recorded in `g`.
pub open spec fn successors(g: ReferenceGraph, a: Seq<char>) -> Seq<Seq<char>> {
    match key_value(g.reference_entries(), a) {
        Some(s) => s,
        None => Seq::empty(),
    }
}

/// Whether `g` has an edge from `a` to the node `b`: `a` refers to `b` and `b` is a node.
pub open spec fn edge(g: ReferenceGraph, a: Seq<char>, b: Seq<char>) -> bool {
    successors(g, a).contains(b) && is_node(g, b)
}

/// Whether step `i` of `w` follows an edge of `g`.
pub open spec fn walk_step(g: ReferenceGraph, w: Seq<Seq<char>>, i: int) -> bool {
    edge(g, w[i], w[i + 1])
}

/// Whether `w` is a walk of `g`: not empty, each step along an edge.
pub open spec fn is_walk(g: ReferenceGraph, w: Seq<Seq<char>>) -> bool {
    w.len() > 0 && forall|i: int| 0 <= i < w.len() - 1 ==> #[trigger] walk_step(g, w, i)
}

/// Whether `y` can be reached from `x` along a walk of `g` (`x` reaches itself).
pub open spec fn reaches(g: ReferenceGraph, x: Seq<char>, y: Seq<char>) -> bool {
    exists|w: Seq<Seq<char>>| #[trigger] is_walk(g, w) && w[0] == x && w.last() == y
}

/// Whether every walk of `g` from `x` avoids the identifiers of `path` and visits no node twice.
pub open spec fn walks_clear(g: ReferenceGraph, x: Seq<char>, path: Seq<Seq<char>>) -> bool {
    forall|w: Seq<Seq<char>>|
        #[trigger] is_walk(g, w) && w[0] == x ==> w.no_duplicates() && forall|i: int|
            0 <= i < w.len() ==> !path.contains(#[trigger] w[i])
}

/// Whether `g` has no reference cycle: no walk from a node visits a node twice.
pub open spec fn acyclic(g: ReferenceGraph) -> bool {
    forall|x: Seq<char>| #[trigger] is_node(g, x) ==> walks_clear(g, x, Seq::empty())
}

/// Whether every identifier of `path` names a node of `g`.
pub open spec fn path_in_graph(g: ReferenceGraph, path: Seq<Seq<char>>) -> bool {
    forall|i: int| 0 <= i < path.len() ==> is_node(g, #[trigger] path[i])
}

/// The targets of the internal references, in order.
pub open spec fn internal_targets(refs: Seq<NodeReference>) -> Seq<Seq<char>> {
    refs_of_type(refs, ReferenceType::Internal).map_values(|r: NodeReference| r.target_id@)
}

/// The distinct identifiers of `s`, each where it first occurs.
pub open spec fn dedup(s: Seq<Seq<char>>) -> Seq<Seq<char>>
    decreases s.len(),
{
    if s.len() == 0 {
        Seq::empty()
    } else {
        set_add(dedup(s.drop_last()), s.last())
    }
}

/// The set under `k`, or an empty one.
pub open spec fn set_under(
    entries: Seq<(Seq<char>, Seq<Seq<char>>)>,
    k: Seq<char>,
) -> Seq<Seq<char>> {
    match key_value(entries, k) {
        Some(s) => s,
        None => Seq::empty(),
    }
}

/// The reverse index after recording `id` as a referrer of each of `targets`, in order.
pub open spec fn add_referrers(
    rev: Seq<(Seq<char>, Seq<Seq<char>>)>,
    targets: Seq<Seq<char>>,
    id: Seq<char>,
) -> Seq<(Seq<char>, Seq<Seq<char>>)>
    decreases targets.len(),
{
    if targets.len() == 0 {
        rev
    } else {
        let prev = add_referrers(rev, targets.drop_last(), id);
        entries_insert(prev, targets.last(), set_add(set_under(prev, targets.last()), id))
    }
}

/// Counts of a reference graph.
#[derive(Debug, Clone, PartialEq)]
pub struct GraphStatistics {
    /// Number of nodes.
    pub node_count: usize,
    /// Number of recorded references between nodes.
    pub internal_reference_count: usize,
    /// Number of references to outside resources.
    pub external_reference_count: usize,
}

/// Sum of the sizes of the recorded reference sets.
pub open spec fn total_set_sizes(entries: Seq<(Seq<char>, Seq<Seq<char>>)>) -> nat
    decreases entries.len(),
{
    if entries.len() == 0 {
        0
    } else {
        total_set_sizes(entries.drop_last()) + entries.last().1.len()
    }
}

/// Number of references to outside resources over all nodes.
pub open spec fn total_external_refs(entries: Seq<(Seq<char>, DataNode)>) -> nat
    decreases entries.len(),
{
    if entries.len() == 0 {
        0
    } else {
        total_external_refs(entries.drop_last()) + refs_of_type(
            entries.last().1.references@,
            ReferenceType::External,
        ).len()
    }
}

/// A one-element sequence is a walk.
proof fn lemma_single_walk(g: ReferenceGraph, x: Seq<char>)
    ensures
        is_walk(g, seq![x]),
{
}

/// A walk with an edge in front is a walk.
proof fn lemma_walk_prepend(g: ReferenceGraph, x: Seq<char>, w: Seq<Seq<char>>)
    requires
        is_walk(g, w),
        edge(g, x, w[0]),
    ensures
        is_walk(g, seq![x] + w),
{
    let v = seq![x] + w;
    assert forall|i: int| 0 <= i < v.len() - 1 implies #[trigger] walk_step(g, v, i) by {
        if i == 0 {
            assert(v[0] == x && v[1] == w[0]);
        } else {
            assert(walk_step(g, w, i - 1));
            assert(v[i] == w[i - 1] && v[i + 1] == w[i]);
        }
    }
}

/// What is left of a walk after its first `k` steps is a walk.
proof fn lemma_walk_suffix(g: ReferenceGraph, w: Seq<Seq<char>>, k: int)
    requires
        is_walk(g, w),
        0 <= k < w.len(),
    ensures
        is_walk(g, w.skip(k)),
{
    let v = w.skip(k);
    assert forall|i: int| 0 <= i < v.len() - 1 implies #[trigger] walk_step(g, v, i) by {
        assert(walk_step(g, w, i + k));
        assert(v[i] == w[i + k] && v[i + 1] == w[i + k + 1]);
    }
}

/// Two walks, the second starting where the first ends, make one walk.
proof fn lemma_walk_concat(g: ReferenceGraph, u: Seq<Seq<char>>, w: Seq<Seq<char>>)
    requires
        is_walk(g, u),
        is_walk(g, w),
        u.last() == w[0],
    ensures
        is_walk(g, u + w.skip(1)),
        (u + w.skip(1)).skip(u.len() - 1) == w,
{
    let v = u + w.skip(1);
    assert forall|i: int| 0 <= i < v.len() - 1 implies #[trigger] walk_step(g, v, i) by {
        if i < u.len() - 1 {
            assert(walk_step(g, u, i));
            assert(v[i] == u[i] && v[i + 1] == u[i + 1]);
        } else {
            let j = i - (u.len() - 1);
            assert(walk_step(g, w, j));
            if j == 0 {
                assert(v[i] == u.last());
            } else {
                assert(v[i] == w[j]);
            }
            assert(v[i + 1] == w[j + 1]);
        }
    }
    assert(v.skip(u.len() - 1) =~= w);
}

/// A node reaches what its successors reach.
proof fn lemma_reach_prepend(g: ReferenceGraph, x: Seq<char>, y: Seq<char>, v: Seq<char>)
    requires
        edge(g, x, y),
        reaches(g, y, v),
    ensures
        reaches(g, x, v),
{
    let w = choose|w: Seq<Seq<char>>| #[trigger] is_walk(g, w) && w[0] == y && w.last() == v;
    lemma_walk_prepend(g, x, w);
    let u = seq![x] + w;
    assert(u[0] == x && u.last() == v);
}

/// A walk that starts on the path is not clear of it.
proof fn lemma_walks_blocked_at_start(g: ReferenceGraph, x: Seq<char>, path: Seq<Seq<char>>)
    requires
        path.contains(x),
    ensures
        !walks_clear(g, x, path),
{
    lemma_single_walk(g, x);
    let w = seq![x];
    assert(path.contains(w[0]));
}

/// A blocked walk from a successor, with the node in front, is blocked.
proof fn lemma_walks_blocked_by_child(
    g: ReferenceGraph,
    x: Seq<char>,
    y: Seq<char>,
    path: Seq<Seq<char>>,
)
    requires
        edge(g, x, y),
        !walks_clear(g, y, path.push(x)),
    ensures
        !walks_clear(g, x, path),
{
    let p1 = path.push(x);
    let w = choose|w: Seq<Seq<char>>|
        !(#[trigger] is_walk(g, w) && w[0] == y ==> w.no_duplicates() && forall|i: int|
            0 <= i < w.len() ==> !p1.contains(#[trigger] w[i]));
    lemma_walk_prepend(g, x, w);
    let v = seq![x] + w;
    assert(v[0] == x);
    if !w.no_duplicates() {
        let (a, b) = choose|a: int, b: int| 0 <= a < w.len() && 0 <= b < w.len() && a != b && w[a] == w[b];
        assert(v[a + 1] == v[b + 1]);
    } else {
        let i = choose|i: int| 0 <= i < w.len() && p1.contains(#[trigger] w[i]);
        assert(v[i + 1] == w[i]);
        if w[i] == x {
            assert(v[0] == v[i + 1]);
        } else {
            let k = choose|k: int| 0 <= k < p1.len() && p1[k] == w[i];
            assert(k < path.len());
            assert(path[k] == w[i]);
            assert(path.contains(v[i + 1]));
        }
    }
}

/// A node off the path, all of whose successors have clear walks, has clear walks.
proof fn lemma_walks_clear_from_children(g: ReferenceGraph, x: Seq<char>, path: Seq<Seq<char>>)
    requires
        !path.contains(x),
        forall|y: Seq<char>| #[trigger] edge(g, x, y) ==> walks_clear(g, y, path.push(x)),
    ensures
        walks_clear(g, x, path),
{
    let p1 = path.push(x);
    assert forall|w: Seq<Seq<char>>| #[trigger] is_walk(g, w) && w[0] == x implies w.no_duplicates()
        && forall|i: int| 0 <= i < w.len() ==> !path.contains(#[trigger] w[i]) by {
        if w.len() == 1 {
        } else {
            assert(walk_step(g, w, 0));
            let y = w[1];
            assert(edge(g, x, y));
            lemma_walk_suffix(g, w, 1);
            let u = w.skip(1);
            assert(u[0] == y);
            assert(is_walk(g, u));
            assert(u.no_duplicates());
            assert forall|i: int| 0 <= i < u.len() implies !p1.contains(#[trigger] u[i]) by {}
            assert forall|i: int| 0 <= i < u.len() implies u[i] != x by {
                assert(!p1.contains(u[i]));
                assert(p1[path.len() as int] == x);
            }
            assert forall|a: int, b: int|
                0 <= a < w.len() && 0 <= b < w.len() && a != b implies w[a] != w[b] by {
                if a == 0 {
                    assert(w[b] == u[b - 1]);
                } else if b == 0 {
                    assert(w[a] == u[a - 1]);
                } else {
                    assert(w[a] == u[a - 1] && w[b] == u[b - 1]);
                }
            }
            assert forall|i: int| 0 <= i < w.len() implies !path.contains(#[trigger] w[i]) by {
                if i > 0 {
                    assert(w[i] == u[i - 1]);
                    assert(!p1.contains(u[i - 1]));
                    if path.contains(w[i]) {
                        let k = choose|k: int| 0 <= k < path.len() && path[k] == w[i];
                        assert(p1[k] == w[i]);
                    }
                }
            }
        }
    }
}

/// What a node with clear walks reaches has clear walks.
proof fn lemma_clear_along(g: ReferenceGraph, s: Seq<char>, v: Seq<char>)
    requires
        walks_clear(g, s, Seq::empty()),
        reaches(g, s, v),
    ensures
        walks_clear(g, v, Seq::empty()),
{
    let u = choose|u: Seq<Seq<char>>| #[trigger] is_walk(g, u) && u[0] == s && u.last() == v;
    assert forall|w: Seq<Seq<char>>| #[trigger] is_walk(g, w) && w[0] == v implies w.no_duplicates()
        && forall|i: int| 0 <= i < w.len() ==> !Seq::<Seq<char>>::empty().contains(#[trigger] w[i]) by {
        lemma_walk_concat(g, u, w);
        let c = u + w.skip(1);
        assert(c[0] == s);
        assert(c.no_duplicates());
        let k = u.len() - 1;
        assert forall|a: int, b: int|
            0 <= a < w.len() && 0 <= b < w.len() && a != b implies w[a] != w[b] by {
            assert(w[a] == c[a + k] && w[b] == c[b + k]);
        }
    }
}

/// A sequence of distinct node identifiers is no longer than the node table.
proof fn lemma_path_fits(g: ReferenceGraph, path: Seq<Seq<char>>)
    requires
        path_in_graph(g, path),
        strings_distinct(path),
    ensures
        path.len() <= g.node_entries().len(),
{
    let keys = g.node_entries().map_values(|e: (Seq<char>, DataNode)| e.0);
    assert(path.no_duplicates());
    path.unique_seq_to_set();
    assert(path.to_set().subset_of(keys.to_set())) by {
        assert forall|x: Seq<char>| path.to_set().contains(x) implies keys.to_set().contains(x) by {
            assert(path.contains(x));
            let i = choose|i: int| 0 <= i < path.len() && path[i] == x;
            assert(is_node(g, path[i]));
            let k = choose|k: int| 0 <= k < g.node_entries().len() && g.node_entries()[k].0 == x;
            assert(keys[k] == x);
            assert(keys.contains(x));
        }
    }
    vstd::set_lib::lemma_len_subset(path.to_set(), keys.to_set());
    keys.lemma_cardinality_of_set();
}

/// Whether every edge of `g` from a member of `r` leads to a member of `r`.
pub open spec fn closed_under_edges(g: ReferenceGraph, r: Seq<Seq<char>>) -> bool {
    forall|v: Seq<char>, y: Seq<char>| #[trigger] r.contains(v) && #[trigger] edge(g, v, y) ==> r.contains(y)
}

/// A set closed under the edges holds the end of every walk from one of its members.
proof fn lemma_closed_holds_walk_end(g: ReferenceGraph, r: Seq<Seq<char>>, w: Seq<Seq<char>>)
    requires
        closed_under_edges(g, r),
        is_walk(g, w),
        r.contains(w[0]),
    ensures
        r.contains(w.last()),
    decreases w.len(),
{
    if w.len() > 1 {
        let u = w.drop_last();
        assert forall|i: int| 0 <= i < u.len() - 1 implies #[trigger] walk_step(g, u, i) by {
            assert(walk_step(g, w, i));
        }
        lemma_closed_holds_walk_end(g, r, u);
        assert(walk_step(g, w, w.len() - 2));
        assert(edge(g, u.last(), w.last()));
    }
}

/// What a reached node has an edge to is reached.
proof fn lemma_reach_prepend_from(g: ReferenceGraph, s: Seq<char>, c: Seq<char>, y: Seq<char>)
    requires
        reaches(g, s, c),
        edge(g, c, y),
    ensures
        reaches(g, s, y),
{
    let u = choose|u: Seq<Seq<char>>| #[trigger] is_walk(g, u) && u[0] == s && u.last() == c;
    let w = seq![c, y];
    assert(walk_step(g, w, 0));
    assert(is_walk(g, w));
    lemma_walk_concat(g, u, w);
    let v = u + w.skip(1);
    assert(v[0] == s && v.last() == y);
}

/// Distinct identifiers, each the start or a node, are at most one more than the nodes.
proof fn lemma_reach_set_fits(g: ReferenceGraph, s: Seq<char>, r: Seq<Seq<char>>)
    requires
        strings_distinct(r),
        forall|y: Seq<char>| #[trigger] r.contains(y) ==> y == s || is_node(g, y),
    ensures
        r.len() <= g.node_entries().len() + 1,
{
    let keys = g.node_entries().map_values(|e: (Seq<char>, DataNode)| e.0);
    let all = keys.to_set().insert(s);
    assert(r.no_duplicates());
    r.unique_seq_to_set();
    assert(r.to_set().subset_of(all)) by {
        assert forall|x: Seq<char>| r.to_set().contains(x) implies all.contains(x) by {
            assert(r.contains(x));
            if x != s {
                assert(is_node(g, x));
                let k = choose|k: int| 0 <= k < g.node_entries().len() && g.node_entries()[k].0 == x;
                assert(keys[k] == x);
                assert(keys.contains(x));
            }
        }
    }
    vstd::set_lib::lemma_len_subset(r.to_set(), all);
    keys.lemma_cardinality_of_set();
}

/// The reference-set total of a prefix is at most the whole total.
proof fn lemma_set_sizes_prefix(entries: Seq<(Seq<char>, Seq<Seq<char>>)>, k: int)
    requires
        0 <= k <= entries.len(),
    ensures
        total_set_sizes(entries.take(k)) <= total_set_sizes(entries),
    decreases entries.len() - k,
{
    if k < entries.len() {
        lemma_set_sizes_prefix(entries, k + 1);
        assert(entries.take(k + 1).drop_last() =~= entries.take(k));
    } else {
        assert(entries.take(k) =~= entries);
    }
}

/// The outside-reference total of a prefix is at most the whole total.
proof fn lemma_external_refs_prefix(entries: Seq<(Seq<char>, DataNode)>, k: int)
    requires
        0 <= k <= entries.len(),
    ensures
        total_external_refs(entries.take(k)) <= total_external_refs(entries),
    decreases entries.len() - k,
{
    if k < entries.len() {
        lemma_external_refs_prefix(entries, k + 1);
        assert(entries.take(k + 1).drop_last() =~= entries.take(k));
    } else {
        assert(entries.take(k) =~= entries);
    }
}

/// Whether every recorded reference `a -> b` is matched by `a` among the referrers of `b`.
pub open spec fn references_in_reverse_index(
    refs: Seq<(Seq<char>, Seq<Seq<char>>)>,
    rev: Seq<(Seq<char>, Seq<Seq<char>>)>,
) -> bool {
    forall|a: Seq<char>, b: Seq<char>|
        #[trigger] set_under(refs, a).contains(b) ==> set_under(rev, b).contains(a)
}

proof fn lemma_set_add_contains(s: Seq<Seq<char>>, x: Seq<char>, y: Seq<char>)
    ensures
        set_add(s, x).contains(y) <==> s.contains(y) || y == x,
{
    if !s.contains(x) {
        let t = s.push(x);
        if s.contains(y) {
            let k = choose|k: int| 0 <= k < s.len() && s[k] == y;
            assert(t[k] == y);
        }
        if y == x {
            assert(t[s.len() as int] == y);
        }
        if t.contains(y) && y != x {
            let k = choose|k: int| 0 <= k < t.len() && t[k] == y;
            assert(s[k] == y);
        }
    }
}

proof fn lemma_dedup_contains(s: Seq<Seq<char>>, y: Seq<char>)
    ensures
        dedup(s).contains(y) <==> s.contains(y),
    decreases s.len(),
{
    if s.len() > 0 {
        lemma_dedup_contains(s.drop_last(), y);
        lemma_set_add_contains(dedup(s.drop_last()), s.last(), y);
        if s.drop_last().contains(y) {
            let k = choose|k: int| 0 <= k < s.drop_last().len() && s.drop_last()[k] == y;
            assert(s[k] == y);
        }
        if s.contains(y) && y != s.last() {
            let k = choose|k: int| 0 <= k < s.len() && s[k] == y;
            assert(s.drop_last()[k] == y);
        }
        if y == s.last() {
            assert(s[s.len() - 1] == y);
        }
    }
}

proof fn lemma_add_referrers_effect(
    rev: Seq<(Seq<char>, Seq<Seq<char>>)>,
    targets: Seq<Seq<char>>,
    id: Seq<char>,
)
    requires
        keys_distinct(rev),
    ensures
        keys_distinct(add_referrers(rev, targets, id)),
        forall|b: Seq<char>, a: Seq<char>| #[trigger] set_under(rev, b).contains(a)
            ==> set_under(add_referrers(rev, targets, id), b).contains(a),
        forall|i: int| 0 <= i < targets.len() ==> set_under(add_referrers(rev, targets, id), #[trigger] targets[i]).contains(id),
    decreases targets.len(),
{
    if targets.len() > 0 {
        let prev = add_referrers(rev, targets.drop_last(), id);
        lemma_add_referrers_effect(rev, targets.drop_last(), id);
        let t = targets.last();
        let now = add_referrers(rev, targets, id);
        lemma_insert_distinct(prev, t, set_add(set_under(prev, t), id));
        assert forall|b: Seq<char>, a: Seq<char>| #[trigger] set_under(prev, b).contains(a) implies set_under(now, b).contains(a) by {
            lemma_key_value_insert(prev, t, set_add(set_under(prev, t), id), b);
            if b == t {
                lemma_set_add_contains(set_under(prev, t), id, a);
            }
        }
        assert forall|b: Seq<char>, a: Seq<char>| #[trigger] set_under(rev, b).contains(a) implies set_under(now, b).contains(a) by {
            assert(set_under(prev, b).contains(a));
        }
        assert forall|i: int| 0 <= i < targets.len() implies set_under(now, #[trigger] targets[i]).contains(id) by {
            if i < targets.len() - 1 {
                assert(targets.drop_last()[i] == targets[i]);
                assert(set_under(prev, targets[i]).contains(id));
            } else {
                lemma_key_value_insert(prev, t, set_add(set_under(prev, t), id), t);
                lemma_set_add_contains(set_under(prev, t), id, id);
            }
        }
    }
}

/// Adding a node keeps every recorded reference in the reverse index: if each reference
/// `a -> b` has `a` among the referrers of `b` before, it does after.
pub proof fn lemma_add_node_keeps_reverse_index(
    refs: Seq<(Seq<char>, Seq<Seq<char>>)>,
    rev: Seq<(Seq<char>, Seq<Seq<char>>)>,
    id: Seq<char>,
    targets: Seq<Seq<char>>,
)
    requires
        keys_distinct(refs),
        keys_distinct(rev),
        references_in_reverse_index(refs, rev),
    ensures
        references_in_reverse_index(
            entries_insert(refs, id, dedup(targets)),
            add_referrers(rev, targets, id),
        ),
{
    let refs2 = entries_insert(refs, id, dedup(targets));
    let rev2 = add_referrers(rev, targets, id);
    lemma_add_referrers_effect(rev, targets, id);
    assert forall|a: Seq<char>, b: Seq<char>| #[trigger] set_under(refs2, a).contains(b) implies set_under(rev2, b).contains(a) by {
        lemma_key_value_insert(refs, id, dedup(targets), a);
        if a == id {
            lemma_dedup_contains(targets, b);
            let i = choose|i: int| 0 <= i < targets.len() && targets[i] == b;
            assert(set_under(rev2, targets[i]).contains(id));
        } else {
            assert(set_under(refs2, a) == set_under(refs, a));
            assert(set_under(refs, a).contains(b));
            assert(set_under(rev, b).contains(a));
        }
    }
}

/// An empty graph has every recorded reference in its reverse index.
pub proof fn lemma_empty_graph_reverse_index(g: ReferenceGraph)
    requires
        g.reference_entries().len() == 0,
    ensures
        references_in_reverse_index(g.reference_entries(), g.referrer_entries()),
{
    assert forall|a: Seq<char>, b: Seq<char>| #[trigger] set_under(g.reference_entries(), a).contains(b) implies set_under(g.referrer_entries(), b).contains(a) by {
        assert(key_position(g.reference_entries(), a) is None);
    }
}

/// Nodes by identifier, with the references between them and the reverse index.
#[derive(Debug, Clone)]
pub struct ReferenceGraph {
    nodes: StringMap<DataNode>,
    references: StringMap<NodeIdSet>,
    reverse_references: StringMap<NodeIdSet>,
}

impl ReferenceGraph {
    /// The nodes, by identifier, in the order first added.
    pub closed spec fn node_entries(&self) -> Seq<(Seq<char>, DataNode)> {
        self.nodes@
    }

    /// The identifiers each node refers to, by node identifier.
    pub closed spec fn reference_entries(&self) -> Seq<(Seq<char>, Seq<Seq<char>>)> {
        self.references@
    }

    /// The identifiers of the nodes referring to each identifier.
    pub closed spec fn referrer_entries(&self) -> Seq<(Seq<char>, Seq<Seq<char>>)> {
        self.reverse_references@
    }

    /// An empty graph.
    pub fn new() -> (r: Self)
        ensures
            r.node_entries().len() == 0,
            r.reference_entries().len() == 0,
            r.referrer_entries().len() == 0,
    {
        ReferenceGraph {
            nodes: StringMap::new(),
            references: StringMap::new(),
            reverse_references: StringMap::new(),
        }
    }

    /// The node named `node_id`.
    pub fn get_node(&self, node_id: &str) -> (r: Option<&DataNode>)
        ensures
            match key_value(self.node_entries(), node_id@) {
                Some(n) => r == Some(&n),
                None => r is None,
            },
    {
        self.nodes.get(node_id)
    }

    /// The identifiers that node `node_id` refers to.
    pub fn get_references(&self, node_id: &str) -> (r: Option<&NodeIdSet>)
        ensures
            match key_value(self.reference_entries(), node_id@) {
                Some(s) => r matches Some(v) && v@ == s,
                None => r is None,
            },
    {
        self.references.get(node_id)
    }

    /// The identifiers of the nodes referring to `node_id`.
    pub fn get_referrers(&self, node_id: &str) -> (r: Option<&NodeIdSet>)
        ensures
            match key_value(self.referrer_entries(), node_id@) {
                Some(s) => r matches Some(v) && v@ == s,
                None => r is None,
            },
    {
        self.reverse_references.get(node_id)
    }

    /// The node identifiers, in the order first added.
    pub fn node_ids(&self) -> (r: Vec<&String>)
        ensures
            r@.len() == self.node_entries().len(),
            forall|i: int| 0 <= i < r@.len() ==> #[trigger] r@[i]@ == self.node_entries()[i].0,
    {
        let n = self.nodes.len();
        let mut ids: Vec<&String> = Vec::new();
        let mut i: usize = 0;
        while i < n
            invariant
                i <= n,
                n == self.nodes@.len(),
                ids@.len() == i,
                forall|j: int| 0 <= j < i ==> #[trigger] ids@[j]@ == self.nodes@[j].0,
            decreases n - i,
        {
            ids.push(self.nodes.key_string_at(i));
            i += 1;
        }
        ids
    }

    fn add_referrer(&mut self, target: &String, referrer: &String)
        ensures
            final(self).referrer_entries() == entries_insert(
                old(self).referrer_entries(),
                target@,
                set_add(set_under(old(self).referrer_entries(), target@), referrer@),
            ),
            final(self).node_entries() == old(self).node_entries(),
            final(self).reference_entries() == old(self).reference_entries(),
    {
        let mut set = match self.reverse_references.get(target.as_str()) {
            Some(s) => s.clone(),
            None => NodeIdSet::new(),
        };
        set.insert(referrer.clone());
        self.reverse_references.insert(target.clone(), set);
    }

    /// Adds `node` after checking its data against its content hash: records the targets of
    /// its internal references, and the node as a referrer of each of them.
    pub fn add_node(&mut self, node: DataNode) -> (r: Result<()>)
        ensures
            r is Ok <==> node_verifies(node),
            r matches Err(e) ==> e is HashMismatch || e is UnsupportedHashAlgorithm,
            r is Err ==> *final(self) == *old(self),
            r is Ok ==> final(self).node_entries() == entries_insert(
                old(self).node_entries(),
                node.id@,
                node,
            ),
            r is Ok ==> final(self).reference_entries() == entries_insert(
                old(self).reference_entries(),
                node.id@,
                dedup(internal_targets(node.references@)),
            ),
            r is Ok ==> final(self).referrer_entries() == add_referrers(
                old(self).referrer_entries(),
                internal_targets(node.references@),
                node.id@,
            ),
    {
        let node_id = node.id.clone();
        node.verify()?;
        let ghost rev0 = self.referrer_entries();
        let ghost nodes0 = self.node_entries();
        let ghost refs0 = self.reference_entries();
        let mut refs = NodeIdSet::new();
        let n = node.references.len();
        let mut i: usize = 0;
        assert(node.references@.take(0) =~= Seq::<NodeReference>::empty());
        assert(internal_targets(Seq::<NodeReference>::empty()) =~= Seq::<Seq<char>>::empty());
        while i < n
            invariant
                i <= n,
                n == node.references@.len(),
                node_id@ == node.id@,
                refs@ == dedup(internal_targets(node.references@.take(i as int))),
                self.referrer_entries() == add_referrers(
                    rev0,
                    internal_targets(node.references@.take(i as int)),
                    node_id@,
                ),
                self.node_entries() == nodes0,
                self.reference_entries() == refs0,
            decreases n - i,
        {
            let ghost pre = node.references@.take(i as int);
            let ghost post = node.references@.take(i + 1);
            assert(post.drop_last() =~= pre);
            assert(post.last() == node.references@[i as int]);
            let reference = &node.references[i];
            if reference.ref_type == ReferenceType::Internal {
                assert(refs_of_type(post, ReferenceType::Internal) == refs_of_type(
                    pre,
                    ReferenceType::Internal,
                ).push(*reference));
                assert(internal_targets(post) =~= internal_targets(pre).push(reference.target_id@));
                assert(internal_targets(post).drop_last() =~= internal_targets(pre));
                refs.insert(reference.target_id.clone());
                self.add_referrer(&reference.target_id, &node_id);
            } else {
                assert(internal_targets(post) =~= internal_targets(pre));
            }
            i += 1;
        }
        assert(node.references@.take(n as int) =~= node.references@);
        self.references.insert(node_id.clone(), refs);
        self.nodes.insert(node_id, node);
        Ok(())
    }

    /// Walks depth first from `node_id`, refusing a node already on the detector's path.
    fn dfs_check_cycle(&self, node_id: &str, detector: &mut CycleDetector) -> (r: Result<()>)
        requires
            is_node(*self, node_id@),
            path_in_graph(*self, old(detector)@.path),
            strings_distinct(old(detector)@.path),
        ensures
            r is Ok <==> walks_clear(*self, node_id@, old(detector)@.path),
            r is Ok ==> final(detector)@.path == old(detector)@.path,
            r is Ok ==> forall|v: Seq<char>| #[trigger]
                final(detector)@.visited.contains(v) ==> old(detector)@.visited.contains(v)
                    || reaches(*self, node_id@, v),
            r matches Err(e) ==> e is CircularReference,
        decreases self.node_entries().len() - old(detector)@.path.len(),
    {
        let ghost g = *self;
        let ghost x = node_id@;
        let ghost p0 = detector@.path;
        let ghost vis0 = detector@.visited;
        proof {
            lemma_path_fits(g, p0);
        }
        match detector.visit(node_id) {
            Ok(()) => {},
            Err(e) => {
                proof {
                    lemma_walks_blocked_at_start(g, x, p0);
                }
                return Err(e);
            },
        }
        let ghost p1 = detector@.path;
        proof {
            assert(p1 == p0.push(x));
            assert forall|i: int| 0 <= i < p1.len() implies is_node(g, #[trigger] p1[i]) by {
                if i < p0.len() {
                    assert(p1[i] == p0[i]);
                }
            }
            lemma_path_fits(g, p1);
            lemma_single_walk(g, x);
            assert(seq![x][0] == x && seq![x].last() == x);
            assert(reaches(g, x, x));
        }
        match self.references.get(node_id) {
            Some(refs) => {
                let n = refs.len();
                let mut i: usize = 0;
                while i < n
                    invariant
                        g == *self,
                        x == node_id@,
                        p0 == old(detector)@.path,
                        vis0 == old(detector)@.visited,
                        i <= n,
                        n == refs@.len(),
                        refs@ == successors(g, x),
                        detector@.path == p1,
                        p1 == p0.push(x),
                        path_in_graph(g, p1),
                        strings_distinct(p1),
                        p1.len() <= g.node_entries().len(),
                        forall|v: Seq<char>| #[trigger]
                            detector@.visited.contains(v) ==> vis0.contains(v) || reaches(g, x, v),
                        forall|j: int|
                            0 <= j < i && is_node(g, #[trigger] refs@[j]) ==> walks_clear(
                                g,
                                refs@[j],
                                p1,
                            ),
                    decreases n - i,
                {
                    let ref_id = refs.id_at(i);
                    if self.nodes.contains_key(ref_id) {
                        let ghost vis1 = detector@.visited;
                        let ghost y = ref_id@;
                        proof {
                            assert(successors(g, x).contains(y)) by {
                                assert(refs@[i as int] == y);
                            }
                            assert(edge(g, x, y));
                        }
                        match self.dfs_check_cycle(ref_id, detector) {
                            Ok(()) => {
                                proof {
                                    assert forall|v: Seq<char>| #[trigger]
                                        detector@.visited.contains(v) implies vis0.contains(v)
                                        || reaches(g, x, v) by {
                                        if !vis1.contains(v) {
                                            lemma_reach_prepend(g, x, y, v);
                                        }
                                    }
                                }
                            },
                            Err(e) => {
                                proof {
                                    lemma_walks_blocked_by_child(g, x, y, p0);
                                }
                                return Err(e);
                            },
                        }
                    }
                    i += 1;
                }
                proof {
                    assert forall|y: Seq<char>| #[trigger] edge(g, x, y) implies walks_clear(
                        g,
                        y,
                        p0.push(x),
                    ) by {
                        let j = choose|j: int| 0 <= j < refs@.len() && refs@[j] == y;
                        assert(is_node(g, refs@[j]));
                    }
                }
            },
            None => {
                proof {
                    assert forall|y: Seq<char>| #[trigger] edge(g, x, y) implies walks_clear(
                        g,
                        y,
                        p0.push(x),
                    ) by {
                        assert(successors(g, x).len() == 0);
                    }
                }
            },
        }
        proof {
            lemma_walks_clear_from_children(g, x, p0);
        }
        detector.leave(node_id);
        proof {
            crate::util::validation::lemma_leave_undoes_visit(p0, x);
        }
        Ok(())
    }

    /// Checks that no walk through the graph visits a node twice.
    pub fn check_cycles(&self) -> (r: Result<()>)
        ensures
            r is Ok <==> acyclic(*self),
            r matches Err(e) ==> e is CircularReference,
    {
        let ghost g = *self;
        let mut detector = CycleDetector::new();
        let n = self.nodes.len();
        let mut i: usize = 0;
        while i < n
            invariant
                g == *self,
                n == g.node_entries().len(),
                keys_distinct(g.node_entries()),
                i <= n,
                detector@.path == Seq::<Seq<char>>::empty(),
                forall|v: Seq<char>| #[trigger]
                    detector@.visited.contains(v) ==> walks_clear(g, v, Seq::empty()),
                forall|j: int|
                    0 <= j < i ==> walks_clear(g, #[trigger] g.node_entries()[j].0, Seq::empty()),
            decreases n - i,
        {
            let id = self.nodes.key_at(i);
            let ghost x = id@;
            proof {
                assert(0 <= i < g.node_entries().len() && g.node_entries()[i as int].0 == x);
                assert(is_node(g, x));
            }
            if !detector.is_visited(id) {
                let ghost vis0 = detector@.visited;
                proof {
                    assert(path_in_graph(g, Seq::<Seq<char>>::empty()));
                }
                match self.dfs_check_cycle(id, &mut detector) {
                    Ok(()) => {
                        proof {
                            assert forall|v: Seq<char>| #[trigger]
                                detector@.visited.contains(v) implies walks_clear(
                                g,
                                v,
                                Seq::empty(),
                            ) by {
                                if !vis0.contains(v) {
                                    lemma_clear_along(g, x, v);
                                }
                            }
                        }
                    },
                    Err(e) => {
                        return Err(e);
                    },
                }
            }
            i += 1;
        }
        proof {
            assert forall|x: Seq<char>| #[trigger] is_node(g, x) implies walks_clear(
                g,
                x,
                Seq::empty(),
            ) by {
                let k = choose|k: int| 0 <= k < g.node_entries().len() && g.node_entries()[k].0 == x;
                assert(walks_clear(g, g.node_entries()[k].0, Seq::empty()));
            }
        }
        Ok(())
    }

    /// Every identifier that `start_id` reaches: itself, and each node along a walk from it.
    pub fn get_reachable_nodes(&self, start_id: &str) -> (r: NodeIdSet)
        ensures
            forall|y: Seq<char>| r@.contains(y) <==> reaches(*self, start_id@, y),
    {
        let ghost g = *self;
        let ghost s = start_id@;
        let ghost bound = g.node_entries().len() + 1;
        let mut reachable = NodeIdSet::new();
        let mut to_visit: Vec<String> = Vec::new();
        to_visit.push(start_id.to_owned());
        proof {
            lemma_single_walk(g, s);
            assert(seq![s][0] == s && seq![s].last() == s);
            assert(to_visit@.map_values(|x: String| x@)[0] == s);
        }
        while to_visit.len() > 0
            invariant
                g == *self,
                s == start_id@,
                bound == g.node_entries().len() + 1,
                strings_distinct(reachable@),
                reachable@.len() <= bound,
                forall|y: Seq<char>| #[trigger] reachable@.contains(y) ==> reaches(g, s, y),
                forall|y: Seq<char>| #[trigger] reachable@.contains(y) ==> y == s || is_node(g, y),
                forall|j: int|
                    0 <= j < to_visit@.len() ==> reaches(g, s, #[trigger] to_visit@[j]@),
                forall|j: int|
                    0 <= j < to_visit@.len() ==> #[trigger] to_visit@[j]@ == s || is_node(
                        g,
                        to_visit@[j]@,
                    ),
                reachable@.contains(s) || to_visit@.map_values(|x: String| x@).contains(s),
                forall|v: Seq<char>, y: Seq<char>| #[trigger]
                    reachable@.contains(v) && #[trigger] edge(g, v, y) ==> reachable@.contains(y)
                        || to_visit@.map_values(|x: String| x@).contains(y),
            decreases bound - reachable@.len(), to_visit@.len(),
        {
            let ghost tv0 = to_visit@.map_values(|x: String| x@);
            let ghost r0 = reachable@;
            let current = to_visit.pop().unwrap();
            let ghost tv1 = to_visit@.map_values(|x: String| x@);
            let ghost c = current@;
            proof {
                assert(tv0 =~= tv1.push(c));
                assert(tv0[tv0.len() - 1] == c);
                assert forall|y: Seq<char>| tv0.contains(y) && y != c implies tv1.contains(y) by {
                    let k = choose|k: int| 0 <= k < tv0.len() && tv0[k] == y;
                    assert(k < tv1.len());
                    assert(tv1[k] == y);
                }
                assert(reaches(g, s, c) && (c == s || is_node(g, c)));
            }
            if !reachable.contains(current.as_str()) {
                reachable.insert(current.clone());
                proof {
                    assert(reachable@ == r0.push(c));
                    assert forall|y: Seq<char>| #[trigger] reachable@.contains(y) implies reaches(g, s, y)
                        && (y == s || is_node(g, y)) by {
                        if y != c {
                            let k = choose|k: int| 0 <= k < reachable@.len() && reachable@[k] == y;
                            assert(r0[k] == y);
                            assert(r0.contains(y));
                        }
                    }
                    lemma_reach_set_fits(g, s, reachable@);
                    assert forall|y: Seq<char>| r0.contains(y) implies #[trigger] reachable@.contains(y) by {
                        let k = choose|k: int| 0 <= k < r0.len() && r0[k] == y;
                        assert(reachable@[k] == y);
                    }
                    assert(reachable@[r0.len() as int] == c);
                    assert forall|v: Seq<char>, y: Seq<char>| #[trigger]
                        reachable@.contains(v) && #[trigger] edge(g, v, y) && v != c implies reachable@.contains(y)
                        || tv1.contains(y) by {
                        let k = choose|k: int| 0 <= k < reachable@.len() && reachable@[k] == v;
                        assert(k < r0.len());
                        assert(r0[k] == v);
                        assert(r0.contains(v));
                        if r0.contains(y) {
                        } else {
                            assert(tv0.contains(y));
                            if y == c {
                            } else {
                                assert(tv1.contains(y));
                            }
                        }
                    }
                }
                match self.references.get(current.as_str()) {
                    Some(refs) => {
                        let n = refs.len();
                        let mut j: usize = 0;
                        while j < n
                            invariant
                                g == *self,
                                s == start_id@,
                                bound == g.node_entries().len() + 1,
                                n == refs@.len(),
                                refs@ == successors(g, c),
                                j <= n,
                                reachable@.contains(c),
                                strings_distinct(reachable@),
                                reachable@.len() <= bound,
                                reachable@.len() == r0.len() + 1,
                                forall|y: Seq<char>| #[trigger] reachable@.contains(y) ==> reaches(g, s, y),
                                forall|y: Seq<char>| #[trigger] reachable@.contains(y) ==> y == s || is_node(g, y),
                                forall|k: int|
                                    0 <= k < to_visit@.len() ==> reaches(g, s, #[trigger] to_visit@[k]@),
                                forall|k: int|
                                    0 <= k < to_visit@.len() ==> #[trigger] to_visit@[k]@ == s || is_node(
                                        g,
                                        to_visit@[k]@,
                                    ),
                                reachable@.contains(s) || to_visit@.map_values(|x: String| x@).contains(s),
                                forall|v: Seq<char>, y: Seq<char>| #[trigger]
                                    reachable@.contains(v) && #[trigger] edge(g, v, y) && v != c
                                        ==> reachable@.contains(y) || to_visit@.map_values(
                                        |x: String| x@,
                                    ).contains(y),
                                forall|k: int|
                                    0 <= k < j && is_node(g, #[trigger] refs@[k]) ==> reachable@.contains(
                                        refs@[k],
                                    ) || to_visit@.map_values(|x: String| x@).contains(refs@[k]),
                            decreases n - j,
                        {
                            let ref_id = refs.id_at(j);
                            if self.nodes.contains_key(ref_id) && !reachable.contains(ref_id) {
                                let ghost tvb = to_visit@.map_values(|x: String| x@);
                                to_visit.push(ref_id.to_owned());
                                proof {
                                    let tva = to_visit@.map_values(|x: String| x@);
                                    assert(tva =~= tvb.push(ref_id@));
                                    assert forall|y: Seq<char>| tvb.contains(y) implies tva.contains(y) by {
                                        let k = choose|k: int| 0 <= k < tvb.len() && tvb[k] == y;
                                        assert(tva[k] == y);
                                    }
                                    assert(tva[tvb.len() as int] == ref_id@);
                                    assert(edge(g, c, ref_id@)) by {
                                        assert(refs@[j as int] == ref_id@);
                                    }
                                    lemma_reach_prepend_from(g, s, c, ref_id@);
                                }
                            }
                            j += 1;
                        }
                        proof {
                            assert forall|y: Seq<char>| #[trigger] edge(g, c, y) implies reachable@.contains(y)
                                || to_visit@.map_values(|x: String| x@).contains(y) by {
                                let k = choose|k: int| 0 <= k < refs@.len() && refs@[k] == y;
                                assert(is_node(g, refs@[k]));
                            }
                        }
                    },
                    None => {
                        proof {
                            assert forall|y: Seq<char>| #[trigger] edge(g, c, y) implies false by {
                                assert(successors(g, c).len() == 0);
                            }
                        }
                    },
                }
                proof {
                    let tv = to_visit@.map_values(|x: String| x@);
                    assert forall|v: Seq<char>, y: Seq<char>| #[trigger]
                        reachable@.contains(v) && #[trigger] edge(g, v, y) implies reachable@.contains(y)
                        || tv.contains(y) by {
                        if v == c {
                            assert(edge(g, c, y));
                        }
                    }
                }
            } else {
                proof {
                    assert forall|v: Seq<char>, y: Seq<char>| #[trigger]
                        reachable@.contains(v) && #[trigger] edge(g, v, y) implies reachable@.contains(y)
                        || tv1.contains(y) by {
                        if !reachable@.contains(y) {
                            assert(tv0.contains(y));
                            assert(y != c);
                        }
                    }
                }
            }
        }
        proof {
            let r = reachable@;
            assert(to_visit@.map_values(|x: String| x@).len() == 0);
            assert(r.contains(s));
            assert(closed_under_edges(g, r));
            assert forall|y: Seq<char>| reaches(g, s, y) implies r.contains(y) by {
                let w = choose|w: Seq<Seq<char>>| #[trigger] is_walk(g, w) && w[0] == s && w.last() == y;
                lemma_closed_holds_walk_end(g, r, w);
            }
        }
        reachable
    }

    /// Counts of nodes, of recorded references between nodes, and of outside references.
    pub fn statistics(&self) -> (r: GraphStatistics)
        requires
            total_set_sizes(self.reference_entries()) <= usize::MAX,
            total_external_refs(self.node_entries()) <= usize::MAX,
        ensures
            r.node_count == self.node_entries().len(),
            r.internal_reference_count == total_set_sizes(self.reference_entries()),
            r.external_reference_count == total_external_refs(self.node_entries()),
    {
        let node_count = self.nodes.len();
        let m = self.references.len();
        let mut internal: usize = 0;
        let mut i: usize = 0;
        assert(self.references@.take(0) =~= Seq::<(Seq<char>, Seq<Seq<char>>)>::empty());
        while i < m
            invariant
                i <= m,
                m == self.references@.len(),
                internal == total_set_sizes(self.references@.take(i as int)),
                total_set_sizes(self.references@) <= usize::MAX,
            decreases m - i,
        {
            let size = self.references.value_at(i).len();
            proof {
                assert(self.references@.take(i + 1).drop_last() =~= self.references@.take(i as int));
                lemma_set_sizes_prefix(self.references@, i + 1);
            }
            internal = internal + size;
            i += 1;
        }
        assert(self.references@.take(m as int) =~= self.references@);
        let mut external: usize = 0;
        let mut k: usize = 0;
        assert(self.nodes@.take(0) =~= Seq::<(Seq<char>, DataNode)>::empty());
        while k < node_count
            invariant
                k <= node_count,
                node_count == self.nodes@.len(),
                external == total_external_refs(self.nodes@.take(k as int)),
                total_external_refs(self.nodes@) <= usize::MAX,
            decreases node_count - k,
        {
            let refs = self.nodes.value_at(k).get_external_references();
            proof {
                assert(self.nodes@.take(k + 1).drop_last() =~= self.nodes@.take(k as int));
                lemma_external_refs_prefix(self.nodes@, k + 1);
                assert(refs@.map_values(|x: &NodeReference| *x).len() == refs@.len());
            }
            external = external + refs.len();
            k += 1;
        }
        assert(self.nodes@.take(node_count as int) =~= self.nodes@);
        GraphStatistics {
            node_count,
            internal_reference_count: internal,
            external_reference_count: external,
        }
    }

    /// Number of nodes.
    pub fn node_count(&self) -> (r: usize)
        ensures
            r == self.node_entries().len(),
    {
        self.nodes.len()
    }
}

impl Default for ReferenceGraph {
    fn default() -> (r: Self)
        ensures
            r.node_entries().len() == 0,
            r.reference_entries().len() == 0,
            r.referrer_entries().len() == 0,
    {
        Self::new()
    }
}

} // verus!
