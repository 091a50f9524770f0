//! The index access protocol: the append-only store of index entries and the
//! read/write/seek operations the rest of the storage engine uses to resolve
//! "value of key K visible at version V" without a full trie walk.
//!
//! The store keeps its records sorted by raw encoded key, exactly as the
//! underlying byte-ordered storage engine does, so the bounded-seek reasoning
//! proved here transfers to the on-disk layout byte for byte.

use vstd::prelude::*;
use crate::codec::{encode_key, key_bytes_part, lemma_key_codec_round_trip,
    lemma_same_key_version_order, spec_decode_key, spec_encode_key, version_bytes_part};
use crate::lex::{bytes_eq, bytes_le, bytes_lt, is_prefix_of, lemma_lex_asym,
    lemma_lex_between_common_prefix, lemma_lex_irrefl, lemma_lex_total, lemma_lex_trans,
    lex_le, lex_lt};
use crate::state_key::StateKey;
use crate::version_bytes::{be_value_of, lemma_be_bytes_round_trip, read_version_be};

verus! {

/// One index record: the state key and version it is stored under, and the
/// nibble count (trie depth) stored as its value.
#[derive(Clone, Debug, PartialEq, Eq)]
pub struct IndexEntry {
    pub key: StateKey,
    pub version: u64,
    pub nibbles: u8,
}

/// Raw records are strictly sorted by encoded key: the physical order of the
/// underlying byte-ordered store, with no duplicate keys.
pub open spec fn sorted_strict(s: Seq<(Vec<u8>, u8)>) -> bool {
    forall|i: int, j: int| 0 <= i < j < s.len() ==> lex_lt(s[i].0@, s[j].0@)
}

/// Every stored record decodes: longer than the version suffix, with a
/// well-formed state-key prefix.
pub open spec fn all_decodable(s: Seq<(Vec<u8>, u8)>) -> bool {
    forall|i: int| 0 <= i < s.len() ==> spec_decode_key(#[trigger] s[i].0@) is Some
}

/// Some record holds exactly the encoded key `k`.
pub open spec fn contains_encoded(s: Seq<(Vec<u8>, u8)>, k: Seq<u8>) -> bool {
    exists|i: int| 0 <= i < s.len() && s[i].0@ == k
}

/// The position of the record holding `k`, when one does.
pub open spec fn index_of_encoded(s: Seq<(Vec<u8>, u8)>, k: Seq<u8>) -> int {
    choose|i: int| 0 <= i < s.len() && s[i].0@ == k
}

/// The records as a map from encoded key to stored nibble count.
pub open spec fn map_of(s: Seq<(Vec<u8>, u8)>) -> Map<Seq<u8>, u8> {
    Map::new(|k: Seq<u8>| contains_encoded(s, k), |k: Seq<u8>| s[index_of_encoded(s, k)].1)
}

/// In a strictly sorted record sequence, each position is the one its encoded
/// key maps to.
proof fn lemma_unique_index(s: Seq<(Vec<u8>, u8)>, i: int)
    requires
        sorted_strict(s),
        0 <= i < s.len(),
    ensures
        contains_encoded(s, s[i].0@),
        index_of_encoded(s, s[i].0@) == i,
        map_of(s).dom().contains(s[i].0@),
        map_of(s)[s[i].0@] == s[i].1,
{
    assert(contains_encoded(s, s[i].0@)) by {
        assert(0 <= i < s.len() && s[i].0@ == s[i].0@);
    }
    let j = index_of_encoded(s, s[i].0@);
    if j < i {
        lemma_lex_irrefl(s[i].0@);
    } else if j > i {
        lemma_lex_irrefl(s[i].0@);
    }
}

/// First position whose encoded key is not below `target`; the length when
/// every record is below it.
fn find_first_ge(entries: &Vec<(Vec<u8>, u8)>, target: &Vec<u8>) -> (r: usize)
    ensures
        r <= entries@.len(),
        forall|j: int| 0 <= j < r ==> lex_lt(#[trigger] entries@[j].0@, target@),
        r < entries@.len() ==> !lex_lt(entries@[r as int].0@, target@),
{
    let n = entries.len();
    let mut i: usize = 0;
    while i < n
        invariant
            n == entries@.len(),
            i <= n,
            forall|j: int| 0 <= j < i ==> lex_lt(#[trigger] entries@[j].0@, target@),
        decreases n - i,
    {
        let e = &entries[i];
        if !bytes_lt(e.0.as_slice(), target.as_slice()) {
            return i;
        }
        i = i + 1;
    }
    i
}

/// First position whose encoded key is strictly above `target`; the length
/// when none is.  This is the seek: the record just before that position, if
/// any, is the greatest stored key at or below `target`.
fn find_first_gt(entries: &Vec<(Vec<u8>, u8)>, target: &Vec<u8>) -> (r: usize)
    ensures
        r <= entries@.len(),
        forall|j: int| 0 <= j < r ==> lex_le(#[trigger] entries@[j].0@, target@),
        r < entries@.len() ==> lex_lt(target@, entries@[r as int].0@),
{
    let n = entries.len();
    let mut i: usize = 0;
    while i < n
        invariant
            n == entries@.len(),
            i <= n,
            forall|j: int| 0 <= j < i ==> lex_le(#[trigger] entries@[j].0@, target@),
        decreases n - i,
    {
        let e = &entries[i];
        if !bytes_le(e.0.as_slice(), target.as_slice()) {
            proof {
                lemma_lex_total(target@, e.0@);
            }
            return i;
        }
        i = i + 1;
    }
    i
}

/// The greatest version at or below `version` at which the map holds a
/// record for `key`, if any.
pub open spec fn spec_latest_at_or_before(
    m: Map<Seq<u8>, u8>,
    key: Seq<u8>,
    version: u64,
) -> Option<u64>
    decreases version,
{
    if m.contains_key(spec_encode_key(key, version)) {
        Some(version)
    } else if version == 0 {
        None
    } else {
        spec_latest_at_or_before(m, key, (version - 1) as u64)
    }
}

/// What the recursion amounts to: the result is the greatest stored version
/// at or below the bound, and `None` only when there is none at all.
pub proof fn lemma_latest_characterization(m: Map<Seq<u8>, u8>, key: Seq<u8>, version: u64)
    ensures
        match spec_latest_at_or_before(m, key, version) {
            Some(v) => v <= version && m.contains_key(spec_encode_key(key, v)) && forall|w: u64|
                v < w <= version ==> !m.contains_key(#[trigger] spec_encode_key(key, w)),
            None => forall|w: u64|
                w <= version ==> !m.contains_key(#[trigger] spec_encode_key(key, w)),
        },
    decreases version,
{
    if !m.contains_key(spec_encode_key(key, version)) && version > 0 {
        lemma_latest_characterization(m, key, (version - 1) as u64);
    }
}

/// No stored record's state-key part is a proper byte-prefix or a proper
/// extension of `key`.  Under this isolation a single seek plus prefix check
/// is a complete lookup; the state key's self-describing encoding is relied
/// on to keep real key sets this way (a proper-prefix pair of encodings could
/// shadow a record, since the stored blob carries no key length of its own).
pub open spec fn key_prefix_isolated(m: Map<Seq<u8>, u8>, key: Seq<u8>) -> bool {
    forall|e: Seq<u8>|
        m.dom().contains(e) ==> {
            let kp = key_bytes_part(e);
            kp == key || (!is_prefix_of(kp, key) && !is_prefix_of(key, kp))
        }
}

/// If the seek finds no record whose state-key part is exactly `key` at or
/// below the target, then under prefix isolation `key` has no record at or
/// below `version` at all.
proof fn lemma_lookup_complete(s: Seq<(Vec<u8>, u8)>, key: Seq<u8>, version: u64, p: int)
    requires
        sorted_strict(s),
        all_decodable(s),
        key_prefix_isolated(map_of(s), key),
        0 <= p <= s.len(),
        forall|j: int| 0 <= j < p ==> lex_le(#[trigger] s[j].0@, spec_encode_key(key, version)),
        p < s.len() ==> lex_lt(spec_encode_key(key, version), s[p as int].0@),
        p == 0 || key_bytes_part(s[p - 1].0@) != key,
    ensures
        spec_latest_at_or_before(map_of(s), key, version) is None,
{
    let m = map_of(s);
    let target = spec_encode_key(key, version);
    let klen = key.len() as int;
    lemma_latest_characterization(m, key, version);
    if spec_latest_at_or_before(m, key, version) is Some {
        let u = spec_latest_at_or_before(m, key, version)->Some_0;
        let e = spec_encode_key(key, u);
        assert(m.contains_key(e) && u <= version);
        if u < version {
            lemma_same_key_version_order(key, u, version);
        }
        assert(lex_le(e, target));
        let j = choose|j: int| 0 <= j < s.len() && s[j].0@ == e;
        assert(0 <= j < s.len() && s[j].0@ == e);
        if j >= p {
            assert(p < s.len());
            if j > p {
                lemma_lex_trans(target, s[p as int].0@, s[j].0@);
            }
            assert(lex_lt(target, e));
            if e == target {
                lemma_lex_irrefl(target);
            } else {
                lemma_lex_asym(e, target);
            }
            assert(false);
        }
        assert(j <= p - 1 && p >= 1);
        let cd = s[p - 1].0@;
        assert(lex_le(e, cd)) by {
            if j < p - 1 {
                assert(lex_lt(s[j].0@, cd));
            }
        }
        assert(lex_le(cd, target));
        assert(e.take(klen) =~= key);
        assert(target.take(klen) =~= key);
        lemma_lex_between_common_prefix(e, cd, target, klen);
        assert(cd.take(klen) == key);
        lemma_unique_index(s, p - 1);
        assert(spec_decode_key(cd) is Some);
        assert(cd.len() > 8);
        let kp = key_bytes_part(cd);
        if cd.len() < klen + 8 {
            assert(kp.len() == cd.len() - 8 < klen);
            assert(key.take(kp.len() as int) =~= kp) by {
                assert(forall|x: int| 0 <= x < kp.len() ==> #[trigger] kp[x] == cd.take(klen)[x]);
            }
            assert(is_prefix_of(kp, key));
            assert(kp != key);
            assert(false);
        } else if cd.len() > klen + 8 {
            assert(kp.len() == cd.len() - 8 > klen);
            assert(kp.take(klen) =~= key) by {
                assert(forall|x: int| 0 <= x < klen ==> #[trigger] kp[x] == cd.take(klen)[x]);
            }
            assert(is_prefix_of(key, kp));
            assert(kp != key);
            assert(false);
        } else {
            assert(kp =~= cd.take(klen));
            assert(kp == key);
            assert(false);
        }
    }
}

/// The map after every entry of the batch is inserted, in order.
pub open spec fn spec_apply_batch(m: Map<Seq<u8>, u8>, batch: Seq<IndexEntry>) -> Map<
    Seq<u8>,
    u8,
>
    decreases batch.len(),
{
    if batch.len() == 0 {
        m
    } else {
        spec_apply_batch(m, batch.drop_last()).insert(
            spec_encode_key(batch.last().key@, batch.last().version),
            batch.last().nibbles,
        )
    }
}

/// The records with version at or below the bound, decoded, in stored order.
pub open spec fn spec_range_scan(s: Seq<(Vec<u8>, u8)>, bound: u64) -> Seq<(Seq<u8>, u64, u8)>
    decreases s.len(),
{
    if s.len() == 0 {
        Seq::empty()
    } else {
        let rest = spec_range_scan(s.drop_last(), bound);
        let d = s.last();
        if be_value_of(version_bytes_part(d.0@)) <= bound {
            rest.push((key_bytes_part(d.0@), be_value_of(version_bytes_part(d.0@)), d.1))
        } else {
            rest
        }
    }
}

/// The append-only state-value index: one record per state write per
/// committed version, totally ordered by the codec's byte encoding.
pub struct StateValueIndex {
    entries: Vec<(Vec<u8>, u8)>,
}

impl View for StateValueIndex {
    type V = Map<Seq<u8>, u8>;

    closed spec fn view(&self) -> Map<Seq<u8>, u8> {
        map_of(self.entries@)
    }
}

impl StateValueIndex {
    /// The raw sorted records, as the underlying store would hold them.
    pub closed spec fn records(&self) -> Seq<(Vec<u8>, u8)> {
        self.entries@
    }

    pub open spec fn well_formed(&self) -> bool {
        sorted_strict(self.records()) && all_decodable(self.records())
    }

    /// An empty index: no record, nothing visible.
    pub fn new() -> (r: StateValueIndex)
        ensures
            r.well_formed(),
            r@ == Map::<Seq<u8>, u8>::empty(),
            r.records() == Seq::<(Vec<u8>, u8)>::empty(),
    {
        let r = StateValueIndex { entries: Vec::new() };
        proof {
            assert(r@ =~= Map::<Seq<u8>, u8>::empty());
            assert(r.records() =~= Seq::<(Vec<u8>, u8)>::empty());
        }
        r
    }

    /// Number of stored records.
    pub fn num_entries(&self) -> (r: usize)
        ensures
            r == self.records().len(),
    {
        self.entries.len()
    }

    /// Point lookup: the nibble count stored for `key` at the greatest
    /// version at or below `version`, or `None` when no record of `key` is
    /// visible at or before it — a normal outcome (absence of prior state),
    /// never an error.  Implemented as one bounded seek to the greatest
    /// stored key at or below the encoded `(key, version)`, then a state-key
    /// prefix check, exactly as the read path runs against the on-disk store.
    ///
    /// A returned nibble count is always the one stored for `key` at the
    /// latest version at or before `version` — never another key's value,
    /// never a later version's.  Completeness of `None` additionally needs
    /// the stored keys not to collide with `key` by proper byte-prefix
    /// (`key_prefix_isolated`).
    pub fn lookup_at_or_before(&self, key: &StateKey, version: u64) -> (r: Option<u8>)
        requires
            self.well_formed(),
            key.well_formed(),
        ensures
            r is Some ==> (spec_latest_at_or_before(self@, key@, version) matches Some(v) && r
                == Some(self@[spec_encode_key(key@, v)])),
            key_prefix_isolated(self@, key@) ==> (r is Some
                <==> spec_latest_at_or_before(self@, key@, version) is Some),
    {
        let ghost s = self.entries@;
        let ghost m = self@;
        let ghost target = spec_encode_key(key@, version);
        let encoded_target = encode_key(key, version);
        let p = find_first_gt(&self.entries, &encoded_target);
        if p == 0 {
            proof {
                if key_prefix_isolated(m, key@) {
                    lemma_lookup_complete(s, key@, version, 0);
                }
            }
            return None;
        }
        let cand = &self.entries[p - 1];
        let ghost cd = s[p - 1].0@;
        proof {
            assert(spec_decode_key(cd) is Some);
        }
        let klen = key.len();
        let clen = cand.0.len();
        if clen - 8 != klen {
            proof {
                assert(key_bytes_part(cd).len() == cd.len() - 8);
                if key_prefix_isolated(m, key@) {
                    lemma_lookup_complete(s, key@, version, p as int);
                }
            }
            return None;
        }
        let prefix = vstd::slice::slice_subrange(cand.0.as_slice(), 0, klen);
        if !bytes_eq(prefix, key.as_bytes()) {
            proof {
                assert(prefix@ == cd.take(klen as int));
                assert(key_bytes_part(cd) == cd.take(klen as int));
                if key_prefix_isolated(m, key@) {
                    lemma_lookup_complete(s, key@, version, p as int);
                }
            }
            return None;
        }
        proof {
            let klen_i = klen as int;
            assert(cd.take(klen_i) == key@);
            let vb = version_bytes_part(cd);
            assert(vb == cd.skip(klen_i));
            assert(vb.len() == 8);
            lemma_be_bytes_round_trip(vb);
            let vc = be_value_of(vb);
            assert(cd =~= spec_encode_key(key@, vc)) by {
                assert(cd =~= cd.take(klen_i) + cd.skip(klen_i));
            }
            assert(lex_le(cd, target));
            assert(vc <= version) by {
                if vc > version {
                    lemma_same_key_version_order(key@, version, vc);
                    if cd == target {
                        lemma_lex_irrefl(target);
                    } else {
                        lemma_lex_asym(target, cd);
                    }
                }
            }
            lemma_unique_index(s, p - 1);
            assert(m.contains_key(cd) && m[cd] == s[p - 1].1);
            assert forall|w: u64| vc < w <= version implies !m.contains_key(
                #[trigger] spec_encode_key(key@, w),
            ) by {
                if m.contains_key(spec_encode_key(key@, w)) {
                    let ew = spec_encode_key(key@, w);
                    let j = choose|j: int| 0 <= j < s.len() && s[j].0@ == ew;
                    assert(0 <= j < s.len() && s[j].0@ == ew);
                    lemma_same_key_version_order(key@, vc, w);
                    if j <= p - 1 {
                        if j < p - 1 {
                            assert(lex_lt(s[j].0@, cd));
                            lemma_lex_asym(cd, ew);
                        } else {
                            lemma_lex_irrefl(cd);
                        }
                    } else {
                        assert(p < s.len());
                        assert(lex_le(ew, target)) by {
                            if w < version {
                                lemma_same_key_version_order(key@, w, version);
                            }
                        }
                        assert(lex_lt(target, s[p as int].0@));
                        if j > p {
                            lemma_lex_trans(target, s[p as int].0@, s[j].0@);
                        }
                        assert(lex_lt(target, ew));
                        if ew == target {
                            lemma_lex_irrefl(target);
                        } else {
                            lemma_lex_asym(ew, target);
                        }
                    }
                }
            }
            lemma_latest_characterization(m, key@, version);
            if spec_latest_at_or_before(m, key@, version) is None {
                assert(!m.contains_key(spec_encode_key(key@, vc)));
                assert(false);
            }
            let u = spec_latest_at_or_before(m, key@, version)->Some_0;
            if u > vc {
                assert(!m.contains_key(spec_encode_key(key@, u)));
                assert(false);
            }
            if u < vc {
                assert(!m.contains_key(spec_encode_key(key@, vc)));
                assert(false);
            }
            assert(u == vc);
        }
        Some(cand.1)
    }

    /// Inserts one index entry: afterwards exactly the encoded `(key,
    /// version)` record maps to `nibbles`, and every other record is
    /// untouched.  Each `(key, version)` pair is written once in normal
    /// operation; a rewrite would replace the stored value.
    pub fn put(&mut self, key: &StateKey, version: u64, nibbles: u8)
        requires
            old(self).well_formed(),
            key.well_formed(),
        ensures
            final(self).well_formed(),
            final(self)@ == old(self)@.insert(spec_encode_key(key@, version), nibbles),
            final(self).records().len() <= old(self).records().len() + 1,
    {
        let encoded = encode_key(key, version);
        let ghost enc = encoded@;
        let ghost s0 = self.entries@;
        proof {
            lemma_key_codec_round_trip(key@, version);
        }
        let p = find_first_ge(&self.entries, &encoded);
        let mut duplicate = false;
        if p < self.entries.len() {
            let e = &self.entries[p];
            if bytes_eq(e.0.as_slice(), encoded.as_slice()) {
                duplicate = true;
            }
        }
        if duplicate {
            self.entries.remove(p);
        }
        self.entries.insert(p, (encoded, nibbles));
        proof {
            let s1 = self.entries@;
            if duplicate {
                assert(s1 =~= s0.update(p as int, (encoded, nibbles)));
                assert(s0[p as int].0@ == enc);
                assert(sorted_strict(s1)) by {
                    assert(forall|i: int| 0 <= i < s1.len() ==> #[trigger] s1[i].0@ == s0[i].0@);
                }
                assert(all_decodable(s1));
                assert(map_of(s1) =~= map_of(s0).insert(enc, nibbles)) by {
                    assert forall|k: Seq<u8>| #[trigger] contains_encoded(s1, k)
                        <==> contains_encoded(s0, k) by {
                        if contains_encoded(s1, k) {
                            let i = choose|i: int| 0 <= i < s1.len() && s1[i].0@ == k;
                            assert(0 <= i < s0.len() && s0[i].0@ == k);
                        }
                        if contains_encoded(s0, k) {
                            let i = choose|i: int| 0 <= i < s0.len() && s0[i].0@ == k;
                            assert(0 <= i < s1.len() && s1[i].0@ == k);
                        }
                    }
                    assert forall|k: Seq<u8>| contains_encoded(s1, k) implies #[trigger] map_of(
                        s1,
                    )[k] == map_of(s0).insert(enc, nibbles)[k] by {
                        let i = choose|i: int| 0 <= i < s1.len() && s1[i].0@ == k;
                        lemma_unique_index(s1, i);
                        if k == enc {
                            lemma_unique_index(s1, p as int);
                        } else {
                            assert(i != p);
                            lemma_unique_index(s0, i);
                        }
                    }
                }
            } else {
                assert(s1 == s0.insert(p as int, (encoded, nibbles)));
                assert(s1.len() == s0.len() + 1);
                assert(forall|k: int| 0 <= k < p ==> s1[k] == s0[k]);
                assert(s1[p as int] == (encoded, nibbles));
                assert(forall|k: int| p < k < s1.len() ==> s1[k] == s0[k - 1]);
                if p < s0.len() {
                    assert(s0[p as int].0@ != enc);
                    lemma_lex_total(s0[p as int].0@, enc);
                    assert(lex_lt(enc, s0[p as int].0@));
                }
                assert(sorted_strict(s1)) by {
                    assert forall|i: int, j: int| 0 <= i < j < s1.len() implies lex_lt(
                        s1[i].0@,
                        s1[j].0@,
                    ) by {
                        if j < p {
                        } else if i < p && j == p {
                        } else if i < p && j > p {
                            assert(s1[j] == s0[j - 1]);
                        } else if i == p && j > p {
                            assert(s1[j] == s0[j - 1]);
                            if j - 1 > p {
                                lemma_lex_trans(enc, s0[p as int].0@, s0[j - 1].0@);
                            }
                        } else {
                            assert(s1[i] == s0[i - 1] && s1[j] == s0[j - 1]);
                        }
                    }
                }
                assert(all_decodable(s1)) by {
                    assert(spec_decode_key(enc) is Some);
                    assert forall|i: int| 0 <= i < s1.len() implies spec_decode_key(
                        #[trigger] s1[i].0@,
                    ) is Some by {
                        if i < p {
                        } else if i == p {
                        } else {
                            assert(s1[i] == s0[i - 1]);
                        }
                    }
                }
                assert(map_of(s1) =~= map_of(s0).insert(enc, nibbles)) by {
                    assert forall|k: Seq<u8>| #[trigger] contains_encoded(s1, k)
                        <==> (k == enc || contains_encoded(s0, k)) by {
                        if contains_encoded(s1, k) {
                            let i = choose|i: int| 0 <= i < s1.len() && s1[i].0@ == k;
                            if i < p {
                                assert(0 <= i < s0.len() && s0[i].0@ == k);
                            } else if i > p {
                                assert(0 <= i - 1 < s0.len() && s0[i - 1].0@ == k);
                            }
                        }
                        if k == enc {
                            assert(0 <= p < s1.len() && s1[p as int].0@ == k);
                        } else if contains_encoded(s0, k) {
                            let i = choose|i: int| 0 <= i < s0.len() && s0[i].0@ == k;
                            if i < p {
                                assert(0 <= i < s1.len() && s1[i].0@ == k);
                            } else {
                                assert(s1[i + 1] == s0[i]);
                                assert(0 <= i + 1 < s1.len() && s1[i + 1].0@ == k);
                            }
                        }
                    }
                    assert forall|k: Seq<u8>| contains_encoded(s1, k) implies #[trigger] map_of(
                        s1,
                    )[k] == map_of(s0).insert(enc, nibbles)[k] by {
                        let i = choose|i: int| 0 <= i < s1.len() && s1[i].0@ == k;
                        lemma_unique_index(s1, i);
                        if k == enc {
                            lemma_unique_index(s1, p as int);
                        } else {
                            assert(i != p);
                            if i < p {
                                lemma_unique_index(s0, i);
                            } else {
                                assert(s1[i] == s0[i - 1]);
                                lemma_unique_index(s0, i - 1);
                            }
                        }
                    }
                }
            }
        }
    }

    /// Applies a whole commit's writes as one atomic batch: afterwards the
    /// index reflects every entry of the batch, and until this call returns
    /// no caller can observe any of them — a reader holding the index sees
    /// the batch fully applied or not at all, never a partially-written one.
    pub fn apply_batch(&mut self, batch: &Vec<IndexEntry>)
        requires
            old(self).well_formed(),
            forall|i: int| 0 <= i < batch@.len() ==> (#[trigger] batch@[i].key).well_formed(),
        ensures
            final(self).well_formed(),
            final(self)@ == spec_apply_batch(old(self)@, batch@),
    {
        let ghost m0 = self@;
        let n = batch.len();
        let mut i: usize = 0;
        while i < n
            invariant
                n == batch@.len(),
                i <= n,
                self.well_formed(),
                self@ == spec_apply_batch(m0, batch@.take(i as int)),
                forall|k: int| 0 <= k < batch@.len() ==> (#[trigger] batch@[k].key).well_formed(),
            decreases n - i,
        {
            let e = &batch[i];
            self.put(&e.key, e.version, e.nibbles);
            proof {
                assert(batch@.take(i + 1).drop_last() =~= batch@.take(i as int));
                assert(batch@.take(i + 1).last() == batch@[i as int]);
            }
            i = i + 1;
        }
        proof {
            assert(batch@.take(n as int) =~= batch@);
        }
    }

    /// Bulk iteration for history and pruning tools: every record whose
    /// version is at or below the bound, decoded, in stored key order.
    pub fn range_scan(&self, version_bound: u64) -> (r: Vec<IndexEntry>)
        requires
            self.well_formed(),
        ensures
            r@.len() == spec_range_scan(self.records(), version_bound).len(),
            forall|i: int|
                0 <= i < r@.len() ==> {
                    let d = spec_range_scan(self.records(), version_bound)[i];
                    (#[trigger] r@[i]).key@ == d.0 && r@[i].version == d.1 && r@[i].nibbles
                        == d.2 && r@[i].key.well_formed()
                },
    {
        let ghost s = self.entries@;
        let mut out: Vec<IndexEntry> = Vec::new();
        let n = self.entries.len();
        let mut i: usize = 0;
        while i < n
            invariant
                n == s.len(),
                s == self.entries@,
                i <= n,
                sorted_strict(s),
                all_decodable(s),
                out@.len() == spec_range_scan(s.take(i as int), version_bound).len(),
                forall|j: int|
                    0 <= j < out@.len() ==> {
                        let d = spec_range_scan(s.take(i as int), version_bound)[j];
                        (#[trigger] out@[j]).key@ == d.0 && out@[j].version == d.1
                            && out@[j].nibbles == d.2 && out@[j].key.well_formed()
                    },
            decreases n - i,
        {
            let cand = &self.entries[i];
            proof {
                assert(spec_decode_key(s[i as int].0@) is Some);
            }
            let clen = cand.0.len();
            let vslice = vstd::slice::slice_subrange(cand.0.as_slice(), clen - 8, clen);
            proof {
                assert(vslice@ =~= version_bytes_part(s[i as int].0@));
            }
            let ver = read_version_be(vslice);
            if ver <= version_bound {
                let kslice = vstd::slice::slice_subrange(cand.0.as_slice(), 0, clen - 8);
                proof {
                    assert(kslice@ =~= key_bytes_part(s[i as int].0@));
                }
                let decoded = match StateKey::decode(kslice) {
                    Ok(k) => k,
                    Err(_) => {
                        proof {
                            assert(false);
                        }
                        return out;
                    },
                };
                out.push(IndexEntry { key: decoded, version: ver, nibbles: cand.1 });
            }
            proof {
                assert(s.take(i + 1).drop_last() =~= s.take(i as int));
                assert(s.take(i + 1).last() == s[i as int]);
            }
            i = i + 1;
        }
        proof {
            assert(s.take(n as int) =~= s);
        }
        out
    }
}

} // verus!
