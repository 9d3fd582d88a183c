//! Validation: security limits, reference cycles, text checks and data-length checks.

use vstd::prelude::*;
use vstd::string::*;
use crate::constants::security_limits;
use crate::error::{Result, UnivError};
use crate::header::str_from_utf8;
use crate::util::text::{
    decimal_string, lemma_string_position_unique, str_chars, str_eq,
    string_position, strings_distinct,
};

verus! {

/// Whether `c` has the Unicode Alphabetic property (`char::is_alphabetic`).
pub uninterp spec fn unicode_alphabetic(c: char) -> bool;

/// Whether `c` is alphabetic or numeric in Unicode (`char::is_alphanumeric`).
pub uninterp spec fn unicode_alphanumeric(c: char) -> bool;

/// Calls `char::is_alphabetic`; the answer is the named Unicode property of `c`.
#[verifier::external_body]
fn char_is_alphabetic(c: char) -> (r: bool)
    ensures
        r == unicode_alphabetic(c),
{
    c.is_alphabetic()
}

/// Calls `char::is_alphanumeric`; the answer is the named Unicode property of `c`.
#[verifier::external_body]
fn char_is_alphanumeric(c: char) -> (r: bool)
    ensures
        r == unicode_alphanumeric(c),
{
    c.is_alphanumeric()
}

/// Limits that a container must stay within.
#[derive(Debug, Clone)]
pub struct SecurityValidator {
    /// Maximum number of chunks.
    pub max_chunks: u32,
    /// Maximum total raw size.
    pub max_raw_size: u64,
    /// Maximum raw size of one chunk.
    pub max_chunk_raw: u32,
    /// Maximum reference depth.
    pub max_ref_depth: u32,
    /// Maximum string table size.
    pub max_string_table: u32,
    /// Expansion threshold: compressed data this many times its raw size or more is refused.
    pub compression_ratio_threshold: u32,
}

/// Whether a chunk of `raw` bytes stored in `compressed` bytes expands past `threshold`:
/// the ratio compressed / raw is at least the threshold (a chunk with no stored bytes never is;
/// one with stored bytes and no raw bytes always is).
pub open spec fn expansion_exceeds(raw: u32, compressed: u32, threshold: u32) -> bool {
    compressed != 0 && compressed as int >= threshold as int * raw as int
}

/// Whether `v` holds the default limits.
pub open spec fn has_default_limits(v: SecurityValidator) -> bool {
    &&& v.max_chunks == security_limits::MAX_CHUNKS
    &&& v.max_raw_size == security_limits::MAX_RAW_SIZE
    &&& v.max_chunk_raw == security_limits::MAX_CHUNK_RAW
    &&& v.max_ref_depth == security_limits::MAX_REF_DEPTH
    &&& v.max_string_table == security_limits::MAX_STRING_TABLE
    &&& v.compression_ratio_threshold == security_limits::COMPRESSION_RATIO_THRESHOLD
}

impl SecurityValidator {
    /// A validator with the default limits.
    pub fn new() -> (r: Self)
        ensures
            has_default_limits(r),
    {
        SecurityValidator {
            max_chunks: security_limits::MAX_CHUNKS,
            max_raw_size: security_limits::MAX_RAW_SIZE,
            max_chunk_raw: security_limits::MAX_CHUNK_RAW,
            max_ref_depth: security_limits::MAX_REF_DEPTH,
            max_string_table: security_limits::MAX_STRING_TABLE,
            compression_ratio_threshold: security_limits::COMPRESSION_RATIO_THRESHOLD,
        }
    }

    /// A validator with the given limits.
    pub fn custom(
        max_chunks: u32,
        max_raw_size: u64,
        max_chunk_raw: u32,
        max_ref_depth: u32,
        max_string_table: u32,
        compression_ratio_threshold: u32,
    ) -> (r: Self)
        ensures
            r.max_chunks == max_chunks,
            r.max_raw_size == max_raw_size,
            r.max_chunk_raw == max_chunk_raw,
            r.max_ref_depth == max_ref_depth,
            r.max_string_table == max_string_table,
            r.compression_ratio_threshold == compression_ratio_threshold,
    {
        SecurityValidator {
            max_chunks,
            max_raw_size,
            max_chunk_raw,
            max_ref_depth,
            max_string_table,
            compression_ratio_threshold,
        }
    }

    /// Refuses more chunks than the limit.
    pub fn validate_chunk_count(&self, chunk_count: u32) -> (r: Result<()>)
        ensures
            r is Ok <==> chunk_count <= self.max_chunks,
            r matches Err(e) ==> (e matches UnivError::SecurityLimitExceeded { max_value, .. }
                && max_value == self.max_chunks),
    {
        if chunk_count > self.max_chunks {
            return Err(UnivError::security_limit_exceeded("chunk_count", self.max_chunks as u64));
        }
        Ok(())
    }

    /// Refuses a total raw size beyond the limit.
    pub fn validate_total_size(&self, total_size: u64) -> (r: Result<()>)
        ensures
            r is Ok <==> total_size <= self.max_raw_size,
            r matches Err(e) ==> (e matches UnivError::SecurityLimitExceeded { max_value, .. }
                && max_value == self.max_raw_size),
    {
        if total_size > self.max_raw_size {
            return Err(UnivError::security_limit_exceeded("total_raw_size", self.max_raw_size));
        }
        Ok(())
    }

    /// Refuses a chunk raw size beyond the limit.
    pub fn validate_chunk_size(&self, chunk_size: u32) -> (r: Result<()>)
        ensures
            r is Ok <==> chunk_size <= self.max_chunk_raw,
            r matches Err(e) ==> (e matches UnivError::SecurityLimitExceeded { max_value, .. }
                && max_value == self.max_chunk_raw),
    {
        if chunk_size > self.max_chunk_raw {
            return Err(
                UnivError::security_limit_exceeded("chunk_raw_size", self.max_chunk_raw as u64),
            );
        }
        Ok(())
    }

    /// Refuses a reference depth beyond the limit.
    pub fn validate_reference_depth(&self, depth: u32) -> (r: Result<()>)
        ensures
            r is Ok <==> depth <= self.max_ref_depth,
            r matches Err(e) ==> e == (UnivError::ReferenceDepthExceeded {
                current: depth,
                max: self.max_ref_depth,
            }),
    {
        if depth > self.max_ref_depth {
            return Err(UnivError::ReferenceDepthExceeded { current: depth, max: self.max_ref_depth });
        }
        Ok(())
    }

    /// Refuses a string table beyond the limit.
    pub fn validate_string_table_size(&self, string_table_size: u32) -> (r: Result<()>)
        ensures
            r is Ok <==> string_table_size <= self.max_string_table,
            r matches Err(e) ==> (e matches UnivError::SecurityLimitExceeded { max_value, .. }
                && max_value == self.max_string_table),
    {
        if string_table_size > self.max_string_table {
            return Err(
                UnivError::security_limit_exceeded(
                    "string_table_size",
                    self.max_string_table as u64,
                ),
            );
        }
        Ok(())
    }

    /// Refuses a chunk whose compressed form expands its raw data past the threshold.
    pub fn validate_compression_ratio(&self, raw_size: u32, compressed_size: u32) -> (r: Result<()>)
        ensures
            r is Ok <==> !expansion_exceeds(raw_size, compressed_size, self.compression_ratio_threshold),
            r matches Err(e) ==> e is CompressionError,
    {
        if compressed_size == 0 {
            return Ok(());
        }
        let threshold = self.compression_ratio_threshold as u64;
        let raw = raw_size as u64;
        assert(threshold * raw <= 0xffff_ffff * 0xffff_ffff) by (nonlinear_arith)
            requires
                threshold <= 0xffff_ffff,
                raw <= 0xffff_ffff,
        ;
        let limit: u64 = threshold * raw;
        if compressed_size as u64 >= limit {
            let mut reason = String::from_str("压缩膨胀率过高: ");
            reason.append(decimal_string(compressed_size as u64).as_str());
            reason.append("/");
            reason.append(decimal_string(raw_size as u64).as_str());
            reason.append(", 阈值: ");
            reason.append(decimal_string(self.compression_ratio_threshold as u64).as_str());
            return Err(UnivError::compression_error(reason));
        }
        Ok(())
    }
}

impl Default for SecurityValidator {
    fn default() -> (r: Self)
        ensures
            has_default_limits(r),
    {
        Self::new()
    }
}

/// `path` after leaving `node`: its occurrence, if any, taken out.
pub open spec fn path_without(path: Seq<Seq<char>>, node: Seq<char>) -> Seq<Seq<char>> {
    match string_position(path, node) {
        Some(i) => path.remove(i),
        None => path,
    }
}

/// What a cycle detector holds: the nodes ever visited, and the current path.
pub struct CycleDetectorView {
    pub visited: Set<Seq<char>>,
    pub path: Seq<Seq<char>>,
}

/// Detects reference cycles while a graph is walked depth first.
#[derive(Debug)]
pub struct CycleDetector {
    visited: Vec<String>,
    path: Vec<String>,
}

impl View for CycleDetector {
    type V = CycleDetectorView;

    closed spec fn view(&self) -> CycleDetectorView {
        CycleDetectorView {
            visited: self.visited@.map_values(|s: String| s@).to_set(),
            path: self.path@.map_values(|s: String| s@),
        }
    }
}

/// Whether `x` occurs in the strings.
fn contains_str(strings: &Vec<String>, x: &str) -> (r: Option<usize>)
    ensures
        match r {
            Some(i) => i < strings@.len() && strings@[i as int]@ == x@,
            None => !strings@.map_values(|s: String| s@).contains(x@),
        },
{
    let mut i: usize = 0;
    while i < strings.len()
        invariant
            i <= strings@.len(),
            forall|j: int| 0 <= j < i ==> strings@[j]@ != x@,
        decreases strings@.len() - i,
    {
        if str_eq(strings[i].as_str(), x) {
            return Some(i);
        }
        i += 1;
    }
    proof {
        let v = strings@.map_values(|s: String| s@);
        assert forall|j: int| 0 <= j < v.len() implies v[j] != x@ by {
            assert(v[j] == strings@[j]@);
        }
    }
    None
}

impl CycleDetector {
    #[verifier::type_invariant]
    closed spec fn inv(self) -> bool {
        strings_distinct(self@.path)
    }

    /// A detector that has seen nothing.
    pub fn new() -> (r: Self)
        ensures
            r@.visited == Set::<Seq<char>>::empty(),
            r@.path == Seq::<Seq<char>>::empty(),
    {
        let d = CycleDetector { visited: Vec::new(), path: Vec::new() };
        assert(d@.path =~= Seq::<Seq<char>>::empty());
        assert(d@.visited =~= Set::<Seq<char>>::empty());
        d
    }

    /// Enters `node_id`: a node already on the current path closes a cycle and is refused;
    /// any other goes on the end of the path and counts as visited.
    pub fn visit(&mut self, node_id: &str) -> (r: Result<()>)
        ensures
            r is Ok <==> !old(self)@.path.contains(node_id@),
            r is Ok ==> final(self)@.path == old(self)@.path.push(node_id@)
                && final(self)@.visited == old(self)@.visited.insert(node_id@),
            r is Err ==> final(self)@ == old(self)@,
            r matches Err(e) ==> (e matches UnivError::CircularReference { node_id: n } && n@
                == node_id@),
            strings_distinct(final(self)@.path),
    {
        proof {
            use_type_invariant(&*self);
        }
        if let Some(pos) = contains_str(&self.path, node_id) {
            assert(self@.path[pos as int] == node_id@);
            return Err(UnivError::CircularReference { node_id: node_id.to_owned() });
        }
        let ghost old_view = self@;
        let mut path = Vec::new();
        std::mem::swap(&mut path, &mut self.path);
        path.push(node_id.to_owned());
        proof {
            let p = path@.map_values(|s: String| s@);
            assert(p =~= old_view.path.push(node_id@));
            assert forall|i: int, j: int| 0 <= i < p.len() && 0 <= j < p.len() && i != j implies p[i]
                != p[j] by {
                if i < old_view.path.len() && j < old_view.path.len() {
                } else if i == old_view.path.len() {
                    assert(old_view.path[j] == p[j]);
                } else {
                    assert(old_view.path[i] == p[i]);
                }
            }
        }
        self.path = path;
        let ghost old_visited = self.visited@;
        if contains_str(&self.visited, node_id).is_none() {
            let mut visited = Vec::new();
            std::mem::swap(&mut visited, &mut self.visited);
            visited.push(node_id.to_owned());
            self.visited = visited;
            proof {
                let old_seq = old_visited.map_values(|s: String| s@);
                let new_seq = self.visited@.map_values(|s: String| s@);
                assert(new_seq =~= old_seq.push(node_id@));
                assert(old_seq.to_set() == old_view.visited);
                assert(new_seq.to_set() =~= old_seq.to_set().insert(node_id@)) by {
                    assert forall|x: Seq<char>| new_seq.contains(x) <==> #[trigger] old_seq.to_set().insert(
                        node_id@,
                    ).contains(x) by {
                        if new_seq.contains(x) {
                            let k = choose|k: int| 0 <= k < new_seq.len() && new_seq[k] == x;
                            if k < old_seq.len() {
                                assert(old_seq[k] == x);
                                assert(old_seq.contains(x));
                            }
                        }
                        if old_seq.contains(x) {
                            let k = choose|k: int| 0 <= k < old_seq.len() && old_seq[k] == x;
                            assert(new_seq[k] == x);
                        }
                        if x == node_id@ {
                            assert(new_seq[new_seq.len() - 1] == x);
                        }
                    }
                }
            }
        } else {
            proof {
                let v = self.visited@.map_values(|s: String| s@);
                let k = choose|k: int| 0 <= k < self.visited@.len() && self.visited@[k]@ == node_id@;
                assert(v[k] == node_id@);
                assert(v.contains(node_id@));
                assert(self@.visited =~= old_view.visited.insert(node_id@));
            }
        }
        Ok(())
    }

    /// Leaves `node_id`: its occurrence on the path, if any, is taken out.
    pub fn leave(&mut self, node_id: &str)
        ensures
            final(self)@.path == path_without(old(self)@.path, node_id@),
            final(self)@.visited == old(self)@.visited,
            strings_distinct(old(self)@.path),
            strings_distinct(final(self)@.path),
            !final(self)@.path.contains(node_id@),
    {
        proof {
            use_type_invariant(&*self);
            lemma_leave_takes_node_off(self@.path, node_id@, node_id@);
        }
        let ghost old_view = self@;
        match contains_str(&self.path, node_id) {
            Some(pos) => {
                let mut path = Vec::new();
                std::mem::swap(&mut path, &mut self.path);
                path.remove(pos);
                proof {
                    lemma_string_position_unique(old_view.path, node_id@, pos as int);
                    let p = path@.map_values(|s: String| s@);
                    assert(p =~= old_view.path.remove(pos as int));
                    assert forall|i: int, j: int|
                        0 <= i < p.len() && 0 <= j < p.len() && i != j implies p[i] != p[j] by {
                        let oi = if i < pos { i } else { i + 1 };
                        let oj = if j < pos { j } else { j + 1 };
                        assert(p[i] == old_view.path[oi] && p[j] == old_view.path[oj]);
                    }
                }
                self.path = path;
            },
            None => {
                proof {
                    if string_position(old_view.path, node_id@) is Some {
                        let k = choose|k: int|
                            0 <= k < old_view.path.len() && old_view.path[k] == node_id@;
                        assert(old_view.path.contains(node_id@));
                    }
                }
            },
        }
    }

    /// Whether `node_id` has been visited.
    pub fn is_visited(&self, node_id: &str) -> (r: bool)
        ensures
            r == self@.visited.contains(node_id@),
    {
        let found = contains_str(&self.visited, node_id);
        proof {
            if let Some(i) = found {
                let v = self.visited@.map_values(|s: String| s@);
                assert(v[i as int] == node_id@);
            }
        }
        found.is_some()
    }

    /// Length of the current path.
    pub fn current_depth(&self) -> (r: usize)
        ensures
            r == self@.path.len(),
    {
        self.path.len()
    }

    /// Forgets every visit and the path.
    pub fn reset(&mut self)
        ensures
            final(self)@.visited == Set::<Seq<char>>::empty(),
            final(self)@.path == Seq::<Seq<char>>::empty(),
    {
        *self = Self::new();
    }
}

impl Clone for CycleDetector {
    /// A detector in the same state.
    fn clone(&self) -> (r: Self)
        ensures
            r@ == self@,
    {
        proof {
            use_type_invariant(self);
        }
        let path = self.path.clone();
        let visited = self.visited.clone();
        proof {
            assert(path@ =~= self.path@);
            assert(visited@ =~= self.visited@);
        }
        CycleDetector { visited, path }
    }
}

impl Default for CycleDetector {
    fn default() -> (r: Self)
        ensures
            r@.visited == Set::<Seq<char>>::empty(),
            r@.path == Seq::<Seq<char>>::empty(),
    {
        Self::new()
    }
}

/// Leaving the node that was just entered gives back the path as it was before.
pub proof fn lemma_leave_undoes_visit(path: Seq<Seq<char>>, node: Seq<char>)
    requires
        strings_distinct(path),
        !path.contains(node),
    ensures
        path_without(path.push(node), node) == path,
{
    let p = path.push(node);
    assert(strings_distinct(p)) by {
        assert forall|i: int, j: int| 0 <= i < p.len() && 0 <= j < p.len() && i != j implies p[i]
            != p[j] by {
            if i < path.len() && j < path.len() {
            } else if i == path.len() {
                assert(path[j] == p[j]);
            } else {
                assert(path[i] == p[i]);
            }
        }
    }
    lemma_string_position_unique(p, node, path.len() as int);
    assert(p.remove(path.len() as int) =~= path);
}

/// Law: after leaving a node, entering it again succeeds (the node is no longer on the
/// path), and puts it back at the end of the path.
pub proof fn lemma_visit_after_leave(path: Seq<Seq<char>>, node: Seq<char>)
    requires
        strings_distinct(path),
    ensures
        !path_without(path, node).contains(node),
        path.len() > 0 && path.last() == node ==> path_without(path, node).push(node) == path,
{
    lemma_leave_takes_node_off(path, node, node);
    if path.len() > 0 && path.last() == node {
        let init = path.drop_last();
        assert(init.push(node) =~= path);
        assert(!init.contains(node)) by {
            if init.contains(node) {
                let k = choose|k: int| 0 <= k < init.len() && init[k] == node;
                assert(path[k] == path[path.len() - 1]);
            }
        }
        assert(strings_distinct(init)) by {
            assert forall|i: int, j: int| 0 <= i < init.len() && 0 <= j < init.len() && i != j implies init[i] != init[j] by {
                assert(init[i] == path[i] && init[j] == path[j]);
            }
        }
        lemma_leave_undoes_visit(init, node);
    }
}

/// Law: in every state, leaving a node takes it off the path and keeps every other node on
/// the path, in order; leaving a node that is not on the path changes nothing.
pub proof fn lemma_leave_takes_node_off(path: Seq<Seq<char>>, node: Seq<char>, other: Seq<char>)
    requires
        strings_distinct(path),
    ensures
        !path_without(path, node).contains(node),
        other != node ==> (path_without(path, node).contains(other) <==> path.contains(other)),
        !path.contains(node) ==> path_without(path, node) == path,
        path.contains(node) ==> path_without(path, node).len() + 1 == path.len(),
{
    match string_position(path, node) {
        Some(i) => {
            let k = choose|k: int| 0 <= k < path.len() && path[k] == node;
            assert(0 <= k < path.len() && path[k] == node);
            lemma_string_position_unique(path, node, k);
            let q = path.remove(i);
            assert forall|j: int| 0 <= j < q.len() implies q[j] != node by {
                if j < i {
                    assert(q[j] == path[j]);
                } else {
                    assert(q[j] == path[j + 1]);
                }
            }
            if other != node {
                if path.contains(other) {
                    let m = choose|m: int| 0 <= m < path.len() && path[m] == other;
                    if m < i {
                        assert(q[m] == other);
                    } else {
                        assert(m != i);
                        assert(q[m - 1] == other);
                    }
                }
                if q.contains(other) {
                    let m = choose|m: int| 0 <= m < q.len() && q[m] == other;
                    if m < i {
                        assert(path[m] == other);
                    } else {
                        assert(path[m + 1] == other);
                    }
                }
            }
        },
        None => {
            if path.contains(node) {
                let k = choose|k: int| 0 <= k < path.len() && path[k] == node;
                assert(0 <= k < path.len() && path[k] == node);
            }
        },
    }
}

/// Whether `s` is an identifier: not empty, first character alphabetic or `_`, every
/// character alphanumeric or one of `_`, `-`, `.`.
pub open spec fn identifier_valid(s: Seq<char>) -> bool {
    &&& s.len() > 0
    &&& (unicode_alphabetic(s[0]) || s[0] == '_')
    &&& forall|i: int| 0 <= i < s.len() ==> #[trigger] identifier_char(s[i])
}

/// A character allowed in an identifier.
pub open spec fn identifier_char(c: char) -> bool {
    unicode_alphanumeric(c) || c == '_' || c == '-' || c == '.'
}

/// Whether position `i` of `s` begins a dot-separated part.
pub open spec fn part_start(s: Seq<char>, i: int) -> bool {
    i == 0 || s[i - 1] == '.'
}

/// Whether `s` is a namespace in reverse-domain form: at least two dot-separated parts,
/// each one not empty, starting with an alphabetic character, and made of alphanumeric
/// characters and `-`.
pub open spec fn namespace_valid(s: Seq<char>) -> bool {
    &&& exists|i: int| 0 <= i < s.len() && #[trigger] s[i] == '.'
    &&& forall|i: int| 0 <= i < s.len() && s[i] != '.' ==> unicode_alphanumeric(#[trigger] s[i])
        || s[i] == '-'
    &&& forall|i: int|
        0 <= i <= s.len() && #[trigger] part_start(s, i) ==> i < s.len() && s[i] != '.'
            && unicode_alphabetic(s[i])
}

/// Checks on text.
pub struct StringValidator;

impl StringValidator {
    /// Decodes UTF-8 bytes, and puts the text in Unicode NFC when `normalize` is set.
    pub fn validate_and_normalize(data: &[u8], normalize: bool) -> (r: Result<String>)
        ensures
            r is Ok <==> vstd::utf8::valid_utf8(data@),
            r matches Ok(s) ==> s@ == if normalize {
                crate::util::text::nfc_form(vstd::utf8::decode_utf8(data@))
            } else {
                vstd::utf8::decode_utf8(data@)
            },
            r matches Err(e) ==> e is InvalidUtf8,
    {
        match str_from_utf8(data) {
            Ok(s) => {
                if normalize {
                    Ok(crate::util::text::nfc_normalize(s))
                } else {
                    Ok(s.to_owned())
                }
            },
            Err(e) => Err(UnivError::InvalidUtf8(e)),
        }
    }

    /// Whether `s` is an identifier.
    pub fn is_valid_identifier(s: &str) -> (r: bool)
        ensures
            r == identifier_valid(s@),
    {
        let chars = str_chars(s);
        if chars.len() == 0 {
            return false;
        }
        let first = chars[0];
        if !char_is_alphabetic(first) && first != '_' {
            return false;
        }
        let mut i: usize = 0;
        while i < chars.len()
            invariant
                chars@ == s@,
                i <= chars@.len(),
                forall|j: int| 0 <= j < i ==> #[trigger] identifier_char(chars@[j]),
            decreases chars@.len() - i,
        {
            let c = chars[i];
            if !(char_is_alphanumeric(c) || c == '_' || c == '-' || c == '.') {
                assert(!identifier_char(chars@[i as int]));
                return false;
            }
            i += 1;
        }
        true
    }

    /// Whether `namespace` is a namespace in reverse-domain form.
    pub fn is_valid_namespace(namespace: &str) -> (r: bool)
        ensures
            r == namespace_valid(namespace@),
    {
        let chars = str_chars(namespace);
        let ghost s = namespace@;
        let mut at_start = true;
        let mut seen_dot = false;
        let mut i: usize = 0;
        while i < chars.len()
            invariant
                chars@ == s,
                s == namespace@,
                i <= s.len(),
                at_start == part_start(s, i as int),
                seen_dot == exists|j: int| 0 <= j < i && #[trigger] s[j] == '.',
                forall|j: int| 0 <= j < i && s[j] != '.' ==> unicode_alphanumeric(#[trigger] s[j])
                    || s[j] == '-',
                forall|j: int|
                    0 <= j < i && #[trigger] part_start(s, j) ==> s[j] != '.' && unicode_alphabetic(
                        s[j],
                    ),
            decreases s.len() - i,
        {
            let c = chars[i];
            if c == '.' {
                if at_start {
                    assert(part_start(s, i as int) && s[i as int] == '.');
                    assert(!namespace_valid(s));
                    return false;
                }
                seen_dot = true;
                at_start = true;
            } else {
                if at_start {
                    if !char_is_alphabetic(c) {
                        assert(part_start(s, i as int) && !unicode_alphabetic(s[i as int]));
                        assert(!namespace_valid(s));
                        return false;
                    }
                }
                if !(char_is_alphanumeric(c) || c == '-') {
                    assert(s[i as int] != '.' && !unicode_alphanumeric(s[i as int]) && s[i as int]
                        != '-');
                    assert(!namespace_valid(s));
                    return false;
                }
                at_start = false;
            }
            i += 1;
            proof {
                assert(s[i - 1] == c);
            }
        }
        if at_start {
            assert(part_start(s, s.len() as int));
            return false;
        }
        if !seen_dot {
            return false;
        }
        proof {
            assert forall|j: int| 0 <= j <= s.len() && #[trigger] part_start(s, j) implies j < s.len()
                && s[j] != '.' && unicode_alphabetic(s[j]) by {
                if j == s.len() {
                    assert(!at_start);
                }
            }
        }
        true
    }
}

/// Checks on data lengths.
pub struct IntegrityValidator;

impl IntegrityValidator {
    /// Refuses data whose length is not `expected_length`.
    pub fn validate_length(data: &[u8], expected_length: usize) -> (r: Result<()>)
        ensures
            r is Ok <==> data@.len() == expected_length,
            r matches Err(e) ==> e == (UnivError::IncompleteData {
                expected: expected_length,
                actual: data@.len() as usize,
            }),
    {
        if data.len() != expected_length {
            return Err(UnivError::IncompleteData { expected: expected_length, actual: data.len() });
        }
        Ok(())
    }

    /// Refuses data shorter than `min_length`.
    pub fn validate_min_length(data: &[u8], min_length: usize) -> (r: Result<()>)
        ensures
            r is Ok <==> data@.len() >= min_length,
            r matches Err(e) ==> e == (UnivError::IncompleteData {
                expected: min_length,
                actual: data@.len() as usize,
            }),
    {
        if data.len() < min_length {
            return Err(UnivError::IncompleteData { expected: min_length, actual: data.len() });
        }
        Ok(())
    }

    /// Refuses a range `offset .. offset + length` that does not lie within the data (the
    /// expected length reported is `usize::MAX` when the end overflows).
    pub fn validate_range(data: &[u8], offset: usize, length: usize) -> (r: Result<()>)
        ensures
            r is Ok <==> offset + length <= data@.len(),
            r matches Err(e) ==> e == (UnivError::IncompleteData {
                expected: if offset + length <= usize::MAX {
                    (offset + length) as usize
                } else {
                    usize::MAX
                },
                actual: data@.len() as usize,
            }),
    {
        let end = match offset.checked_add(length) {
            Some(e) => e,
            None => {
                return Err(UnivError::IncompleteData { expected: usize::MAX, actual: data.len() });
            },
        };
        if end > data.len() {
            return Err(UnivError::IncompleteData { expected: end, actual: data.len() });
        }
        Ok(())
    }
}

} // verus!
