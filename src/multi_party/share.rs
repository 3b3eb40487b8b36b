//! Data shares as the query service holds them, with string metadata.

use std::collections::HashMap;
use vstd::arithmetic::div_mod::*;
use vstd::prelude::*;

verus! {

/// What a share stands for.
#[derive(Debug, Clone, Copy, PartialEq, Eq, Structural)]
pub enum ShareType {
    Feature,
    Metadata,
    Noise,
    Permutation,
    QueryResult,
}

/// A share held by one server. Metadata entries are kept in insertion order;
/// the latest entry for a key is the one that counts.
#[derive(Debug, Clone)]
pub struct DataShare {
    pub server_id: usize,
    pub feature_index: usize,
    pub share_type: ShareType,
    pub value: u64,
    pub modulus: u64,
    pub metadata: Vec<(String, String)>,
}

/// The value of the latest entry for `key`, if any.
pub open spec fn lookup(entries: Seq<(String, String)>, key: Seq<char>) -> Option<String>
    decreases entries.len(),
{
    if entries.len() == 0 {
        None
    } else if entries.last().0@ == key {
        Some(entries.last().1)
    } else {
        lookup(entries.drop_last(), key)
    }
}

impl DataShare {
    /// A share with no metadata.
    pub fn new(server_id: usize, feature_index: usize, share_type: ShareType, value: u64, modulus: u64) -> (r: DataShare)
        ensures
            r.server_id == server_id && r.feature_index == feature_index && r.share_type == share_type
                && r.value == value && r.modulus == modulus && r.metadata@.len() == 0,
    {
        DataShare { server_id, feature_index, share_type, value, modulus, metadata: Vec::new() }
    }

    pub fn feature(server_id: usize, feature_index: usize, value: u64, modulus: u64) -> (r: DataShare)
        ensures
            r.server_id == server_id && r.feature_index == feature_index && r.share_type == ShareType::Feature
                && r.value == value && r.modulus == modulus && r.metadata@.len() == 0,
    {
        DataShare::new(server_id, feature_index, ShareType::Feature, value, modulus)
    }

    pub fn metadata(server_id: usize, feature_index: usize, value: u64, modulus: u64) -> (r: DataShare)
        ensures
            r.server_id == server_id && r.feature_index == feature_index && r.share_type == ShareType::Metadata
                && r.value == value && r.modulus == modulus && r.metadata@.len() == 0,
    {
        DataShare::new(server_id, feature_index, ShareType::Metadata, value, modulus)
    }

    pub fn noise(server_id: usize, feature_index: usize, value: u64, modulus: u64) -> (r: DataShare)
        ensures
            r.server_id == server_id && r.feature_index == feature_index && r.share_type == ShareType::Noise
                && r.value == value && r.modulus == modulus && r.metadata@.len() == 0,
    {
        DataShare::new(server_id, feature_index, ShareType::Noise, value, modulus)
    }

    pub fn permutation(server_id: usize, feature_index: usize, value: u64, modulus: u64) -> (r: DataShare)
        ensures
            r.server_id == server_id && r.feature_index == feature_index && r.share_type == ShareType::Permutation
                && r.value == value && r.modulus == modulus && r.metadata@.len() == 0,
    {
        DataShare::new(server_id, feature_index, ShareType::Permutation, value, modulus)
    }

    /// Sets `key` to `value`, replacing any earlier value.
    pub fn add_metadata(&mut self, key: String, value: String)
        ensures
            final(self).server_id == old(self).server_id,
            final(self).feature_index == old(self).feature_index,
            final(self).share_type == old(self).share_type,
            final(self).value == old(self).value,
            final(self).modulus == old(self).modulus,
            final(self).metadata@ == old(self).metadata@.push((key, value)),
            forall|k: Seq<char>|
                #[trigger] lookup(final(self).metadata@, k) == if k == key@ {
                    Some(value)
                } else {
                    lookup(old(self).metadata@, k)
                },
    {
        let ghost before = self.metadata@;
        self.metadata.push((key, value));
        proof {
            assert(self.metadata@.drop_last() == before);
        }
    }

    /// The value set for `key`, if any.
    pub fn get_metadata(&self, key: &str) -> (r: Option<&String>)
        ensures
            match r {
                Some(v) => lookup(self.metadata@, key@) == Some(*v),
                None => lookup(self.metadata@, key@) is None,
            },
    {
        let wanted = key.to_owned();
        let mut i: usize = self.metadata.len();
        proof {
            assert(self.metadata@.take(i as int) == self.metadata@);
        }
        while i > 0
            invariant
                wanted@ == key@,
                i <= self.metadata@.len(),
                lookup(self.metadata@, key@) == lookup(self.metadata@.take(i as int), key@),
            decreases i,
        {
            let ghost prefix = self.metadata@.take(i as int);
            proof {
                assert(prefix.drop_last() == self.metadata@.take(i - 1));
                assert(prefix.last() == self.metadata@[i - 1]);
            }
            if self.metadata[i - 1].0 == wanted {
                return Some(&self.metadata[i - 1].1);
            }
            i = i - 1;
        }
        None
    }

    pub fn is_feature(&self) -> (r: bool)
        ensures
            r == (self.share_type == ShareType::Feature),
    {
        self.share_type == ShareType::Feature
    }

    pub fn is_metadata(&self) -> (r: bool)
        ensures
            r == (self.share_type == ShareType::Metadata),
    {
        self.share_type == ShareType::Metadata
    }

    pub fn is_noise(&self) -> (r: bool)
        ensures
            r == (self.share_type == ShareType::Noise),
    {
        self.share_type == ShareType::Noise
    }

    pub fn is_permutation(&self) -> (r: bool)
        ensures
            r == (self.share_type == ShareType::Permutation),
    {
        self.share_type == ShareType::Permutation
    }
}

/// Position of the latest group for `k`, or -1.
pub open spec fn index_of(e: Seq<(usize, Vec<DataShare>)>, k: usize) -> int
    decreases e.len(),
{
    if e.len() == 0 {
        -1
    } else if e.last().0 == k {
        e.len() - 1
    } else {
        index_of(e.drop_last(), k)
    }
}

/// Position of the latest group named `k`, or -1.
pub open spec fn index_of_name(e: Seq<(String, Vec<DataShare>)>, k: Seq<char>) -> int
    decreases e.len(),
{
    if e.len() == 0 {
        -1
    } else if e.last().0@ == k {
        e.len() - 1
    } else {
        index_of_name(e.drop_last(), k)
    }
}

/// `e2` is `e` with `share` appended to the group at `i`, or, when `i` is -1,
/// with a new group for key `k` holding `share` alone.
pub open spec fn appended<K>(e: Seq<(K, Vec<DataShare>)>, e2: Seq<(K, Vec<DataShare>)>, i: int, k: K, share: DataShare) -> bool {
    if i >= 0 {
        &&& e2.len() == e.len()
        &&& e2[i].0 == e[i].0
        &&& e2[i].1@ == e[i].1@.push(share)
        &&& forall|j: int| 0 <= j < e.len() && j != i ==> #[trigger] e2[j] == e[j]
    } else {
        &&& e2.len() == e.len() + 1
        &&& e2.last().0 == k
        &&& e2.last().1@ == seq![share]
        &&& forall|j: int| 0 <= j < e.len() ==> #[trigger] e2[j] == e[j]
    }
}

/// The number of shares in all groups.
pub open spec fn group_total<K>(e: Seq<(K, Vec<DataShare>)>) -> int
    decreases e.len(),
{
    if e.len() == 0 {
        0
    } else {
        group_total(e.drop_last()) + e.last().1@.len()
    }
}

fn locate(groups: &Vec<(usize, Vec<DataShare>)>, key: usize) -> (r: Option<usize>)
    ensures
        match r {
            Some(i) => i == index_of(groups@, key) && i < groups@.len(),
            None => index_of(groups@, key) == -1,
        },
{
    let mut i: usize = groups.len();
    proof {
        assert(groups@.take(i as int) == groups@);
    }
    while i > 0
        invariant
            i <= groups@.len(),
            index_of(groups@, key) == index_of(groups@.take(i as int), key),
        decreases i,
    {
        proof {
            assert(groups@.take(i as int).drop_last() == groups@.take(i - 1));
        }
        if groups[i - 1].0 == key {
            return Some(i - 1);
        }
        i = i - 1;
    }
    None
}

fn locate_name(groups: &Vec<(String, Vec<DataShare>)>, key: &str) -> (r: Option<usize>)
    ensures
        match r {
            Some(i) => i == index_of_name(groups@, key@) && i < groups@.len(),
            None => index_of_name(groups@, key@) == -1,
        },
{
    let wanted = key.to_owned();
    let mut i: usize = groups.len();
    proof {
        assert(groups@.take(i as int) == groups@);
    }
    while i > 0
        invariant
            wanted@ == key@,
            i <= groups@.len(),
            index_of_name(groups@, key@) == index_of_name(groups@.take(i as int), key@),
        decreases i,
    {
        proof {
            assert(groups@.take(i as int).drop_last() == groups@.take(i - 1));
        }
        if groups[i - 1].0 == wanted {
            return Some(i - 1);
        }
        i = i - 1;
    }
    None
}

fn append_share(groups: &mut Vec<(usize, Vec<DataShare>)>, key: usize, share: DataShare)
    ensures
        appended(old(groups)@, final(groups)@, index_of(old(groups)@, key), key, share),
{
    match locate(groups, key) {
        Some(i) => {
            let (k, mut v) = groups.remove(i);
            v.push(share);
            groups.insert(i, (k, v));
        },
        None => {
            let mut v: Vec<DataShare> = Vec::new();
            v.push(share);
            groups.push((key, v));
        },
    }
}

fn append_named_share(groups: &mut Vec<(String, Vec<DataShare>)>, key: String, share: DataShare)
    ensures
        appended(old(groups)@, final(groups)@, index_of_name(old(groups)@, key@), key, share),
{
    match locate_name(groups, key.as_str()) {
        Some(i) => {
            let (k, mut v) = groups.remove(i);
            v.push(share);
            groups.insert(i, (k, v));
        },
        None => {
            let mut v: Vec<DataShare> = Vec::new();
            v.push(share);
            groups.push((key, v));
        },
    }
}

/// The shares of one data point, grouped by feature index, metadata key and
/// noise index, in the order the groups were first used.
#[derive(Debug, Clone)]
pub struct DataPointShares {
    pub data_point_id: String,
    pub feature_shares: Vec<(usize, Vec<DataShare>)>,
    pub metadata_shares: Vec<(String, Vec<DataShare>)>,
    pub noise_shares: Vec<(usize, Vec<DataShare>)>,
    pub permutation_shares: Vec<DataShare>,
}

impl DataPointShares {
    pub fn new(data_point_id: String) -> (r: DataPointShares)
        ensures
            r.data_point_id == data_point_id,
            r.feature_shares@.len() == 0,
            r.metadata_shares@.len() == 0,
            r.noise_shares@.len() == 0,
            r.permutation_shares@.len() == 0,
    {
        DataPointShares {
            data_point_id,
            feature_shares: Vec::new(),
            metadata_shares: Vec::new(),
            noise_shares: Vec::new(),
            permutation_shares: Vec::new(),
        }
    }

    pub fn add_feature_share(&mut self, feature_index: usize, share: DataShare)
        ensures
            appended(old(self).feature_shares@, final(self).feature_shares@, index_of(old(self).feature_shares@, feature_index), feature_index, share),
            final(self).data_point_id == old(self).data_point_id,
            final(self).metadata_shares == old(self).metadata_shares,
            final(self).noise_shares == old(self).noise_shares,
            final(self).permutation_shares == old(self).permutation_shares,
    {
        append_share(&mut self.feature_shares, feature_index, share);
    }

    pub fn add_metadata_share(&mut self, key: String, share: DataShare)
        ensures
            appended(old(self).metadata_shares@, final(self).metadata_shares@, index_of_name(old(self).metadata_shares@, key@), key, share),
            final(self).data_point_id == old(self).data_point_id,
            final(self).feature_shares == old(self).feature_shares,
            final(self).noise_shares == old(self).noise_shares,
            final(self).permutation_shares == old(self).permutation_shares,
    {
        append_named_share(&mut self.metadata_shares, key, share);
    }

    pub fn add_noise_share(&mut self, feature_index: usize, share: DataShare)
        ensures
            appended(old(self).noise_shares@, final(self).noise_shares@, index_of(old(self).noise_shares@, feature_index), feature_index, share),
            final(self).data_point_id == old(self).data_point_id,
            final(self).feature_shares == old(self).feature_shares,
            final(self).metadata_shares == old(self).metadata_shares,
            final(self).permutation_shares == old(self).permutation_shares,
    {
        append_share(&mut self.noise_shares, feature_index, share);
    }

    pub fn add_permutation_share(&mut self, share: DataShare)
        ensures
            final(self).permutation_shares@ == old(self).permutation_shares@.push(share),
            final(self).data_point_id == old(self).data_point_id,
            final(self).feature_shares == old(self).feature_shares,
            final(self).metadata_shares == old(self).metadata_shares,
            final(self).noise_shares == old(self).noise_shares,
    {
        self.permutation_shares.push(share);
    }

    /// The shares of feature `feature_index`, if any.
    pub fn get_feature_shares(&self, feature_index: usize) -> (r: Option<&[DataShare]>)
        ensures
            match r {
                Some(v) => index_of(self.feature_shares@, feature_index) >= 0 && v@ == self.feature_shares@[index_of(
                    self.feature_shares@,
                    feature_index,
                )].1@,
                None => index_of(self.feature_shares@, feature_index) == -1,
            },
    {
        match locate(&self.feature_shares, feature_index) {
            Some(i) => Some(self.feature_shares[i].1.as_slice()),
            None => None,
        }
    }

    /// The shares under metadata key `key`, if any.
    pub fn get_metadata_shares(&self, key: &str) -> (r: Option<&[DataShare]>)
        ensures
            match r {
                Some(v) => index_of_name(self.metadata_shares@, key@) >= 0 && v@ == self.metadata_shares@[index_of_name(
                    self.metadata_shares@,
                    key@,
                )].1@,
                None => index_of_name(self.metadata_shares@, key@) == -1,
            },
    {
        match locate_name(&self.metadata_shares, key) {
            Some(i) => Some(self.metadata_shares[i].1.as_slice()),
            None => None,
        }
    }

    /// The noise shares of feature `feature_index`, if any.
    pub fn get_noise_shares(&self, feature_index: usize) -> (r: Option<&[DataShare]>)
        ensures
            match r {
                Some(v) => index_of(self.noise_shares@, feature_index) >= 0 && v@ == self.noise_shares@[index_of(
                    self.noise_shares@,
                    feature_index,
                )].1@,
                None => index_of(self.noise_shares@, feature_index) == -1,
            },
    {
        match locate(&self.noise_shares, feature_index) {
            Some(i) => Some(self.noise_shares[i].1.as_slice()),
            None => None,
        }
    }

    /// The feature indices that have shares, in the order they were first used.
    pub fn feature_indices(&self) -> (r: Vec<usize>)
        ensures
            r@.len() == self.feature_shares@.len(),
            forall|i: int| 0 <= i < r@.len() ==> #[trigger] r@[i] == self.feature_shares@[i].0,
    {
        let mut keys: Vec<usize> = Vec::with_capacity(self.feature_shares.len());
        let mut i: usize = 0;
        while i < self.feature_shares.len()
            invariant
                i <= self.feature_shares@.len(),
                keys@.len() == i,
                forall|j: int| 0 <= j < i ==> #[trigger] keys@[j] == self.feature_shares@[j].0,
            decreases self.feature_shares.len() - i,
        {
            keys.push(self.feature_shares[i].0);
            i = i + 1;
        }
        keys
    }

    /// The metadata keys that have shares, in the order they were first used.
    pub fn metadata_keys(&self) -> (r: Vec<String>)
        ensures
            r@.len() == self.metadata_shares@.len(),
            forall|i: int| 0 <= i < r@.len() ==> #[trigger] r@[i] == self.metadata_shares@[i].0,
    {
        let mut keys: Vec<String> = Vec::with_capacity(self.metadata_shares.len());
        let mut i: usize = 0;
        while i < self.metadata_shares.len()
            invariant
                i <= self.metadata_shares@.len(),
                keys@.len() == i,
                forall|j: int| 0 <= j < i ==> #[trigger] keys@[j] == self.metadata_shares@[j].0,
            decreases self.metadata_shares.len() - i,
        {
            keys.push(self.metadata_shares[i].0.clone());
            i = i + 1;
        }
        keys
    }

    /// The number of shares held, over all groups.
    pub fn total_shares(&self) -> (r: usize)
        requires
            group_total(self.feature_shares@) + group_total(self.metadata_shares@) + group_total(self.noise_shares@)
                + self.permutation_shares@.len() <= usize::MAX,
        ensures
            r == group_total(self.feature_shares@) + group_total(self.metadata_shares@) + group_total(self.noise_shares@)
                + self.permutation_shares@.len(),
    {
        proof {
            lemma_group_total_nonneg(self.feature_shares@);
            lemma_group_total_nonneg(self.metadata_shares@);
            lemma_group_total_nonneg(self.noise_shares@);
        }
        let f = count_usize_groups(&self.feature_shares);
        let m = count_named_groups(&self.metadata_shares);
        let n = count_usize_groups(&self.noise_shares);
        f + m + n + self.permutation_shares.len()
    }
}

proof fn lemma_group_total_nonneg<K>(e: Seq<(K, Vec<DataShare>)>)
    ensures
        group_total(e) >= 0,
    decreases e.len(),
{
    if e.len() > 0 {
        lemma_group_total_nonneg(e.drop_last());
    }
}

proof fn lemma_group_total_prefix<K>(e: Seq<(K, Vec<DataShare>)>, i: int)
    requires
        0 <= i <= e.len(),
    ensures
        group_total(e.take(i)) <= group_total(e),
    decreases e.len() - i,
{
    if i < e.len() {
        lemma_group_total_prefix(e, i + 1);
        assert(e.take(i + 1).drop_last() == e.take(i));
    } else {
        assert(e.take(i) == e);
    }
}

fn count_usize_groups(e: &Vec<(usize, Vec<DataShare>)>) -> (r: usize)
    requires
        group_total(e@) <= usize::MAX,
    ensures
        r == group_total(e@),
{
    let mut total: usize = 0;
    let mut i: usize = 0;
    while i < e.len()
        invariant
            i <= e@.len(),
            group_total(e@) <= usize::MAX,
            total == group_total(e@.take(i as int)),
        decreases e.len() - i,
    {
        proof {
            assert(e@.take(i + 1).drop_last() == e@.take(i as int));
            lemma_group_total_prefix(e@, i + 1);
        }
        total = total + e[i].1.len();
        i = i + 1;
    }
    proof {
        assert(e@.take(e@.len() as int) == e@);
    }
    total
}

fn count_named_groups(e: &Vec<(String, Vec<DataShare>)>) -> (r: usize)
    requires
        group_total(e@) <= usize::MAX,
    ensures
        r == group_total(e@),
{
    let mut total: usize = 0;
    let mut i: usize = 0;
    while i < e.len()
        invariant
            i <= e@.len(),
            group_total(e@) <= usize::MAX,
            total == group_total(e@.take(i as int)),
        decreases e.len() - i,
    {
        proof {
            assert(e@.take(i + 1).drop_last() == e@.take(i as int));
            lemma_group_total_prefix(e@, i + 1);
        }
        total = total + e[i].1.len();
        i = i + 1;
    }
    proof {
        assert(e@.take(e@.len() as int) == e@);
    }
    total
}

/// How shares are spread over the servers.
#[derive(Debug, Clone, PartialEq, Eq)]
pub enum ShareDistribution {
    /// Share `i` goes to server `i mod n`.
    Even,
    /// Share `i` goes to server `2i mod n`.
    Weighted,
    /// Share `i` goes to servers `i, i + 1, ..., i + redundancy_factor - 1`, modulo `n`.
    Redundant { redundancy_factor: usize },
    /// Server `k` takes `weights[k]` consecutive shares before the next server with a positive weight takes over.
    Custom(Vec<usize>),
}

impl Default for ShareDistribution {
    fn default() -> (r: ShareDistribution)
        ensures
            r == ShareDistribution::Even,
    {
        ShareDistribution::Even
    }
}

/// `a` has the same fields and metadata as `b`.
pub open spec fn same_share(a: DataShare, b: DataShare) -> bool {
    &&& a.server_id == b.server_id && a.feature_index == b.feature_index && a.share_type == b.share_type
    &&& a.value == b.value && a.modulus == b.modulus && a.metadata@ == b.metadata@
}

/// Entry-wise `same_share`.
pub open spec fn same_shares(a: Seq<DataShare>, b: Seq<DataShare>) -> bool {
    a.len() == b.len() && forall|i: int| 0 <= i < a.len() ==> same_share(#[trigger] a[i], b[i])
}

/// The first server from `s` on, cyclically and within `fuel` steps, with a positive weight.
pub open spec fn next_positive(weights: Seq<usize>, n: int, s: int, fuel: nat) -> int
    decreases fuel,
{
    if fuel == 0 || weights[s] > 0 {
        s
    } else {
        next_positive(weights, n, (s + 1) % n, (fuel - 1) as nat)
    }
}

/// Placing one share under custom weights, from state (server, shares given to it).
pub open spec fn custom_place(weights: Seq<usize>, n: int, st: (int, int)) -> (int, int) {
    if st.1 < weights[st.0] {
        (st.0, st.1 + 1)
    } else {
        (next_positive(weights, n, (st.0 + 1) % n, n as nat), 1)
    }
}

/// The custom-weight state after `i` shares have been placed.
pub open spec fn custom_state(weights: Seq<usize>, n: int, i: nat) -> (int, int)
    decreases i,
{
    if i == 0 {
        (0, 0)
    } else {
        custom_place(weights, n, custom_state(weights, n, (i - 1) as nat))
    }
}

/// The servers that share `i` goes to, in order.
pub open spec fn targets(d: ShareDistribution, n: int, i: int) -> Seq<int> {
    match d {
        ShareDistribution::Even => seq![i % n],
        ShareDistribution::Weighted => seq![(i * 2) % n],
        ShareDistribution::Redundant { redundancy_factor } => Seq::new(redundancy_factor as nat, |j: int| (i + j) % n),
        ShareDistribution::Custom(w) => seq![custom_state(w@, n, (i + 1) as nat).0],
    }
}

/// How many of the first `j` entries of `ts` are `k`.
pub open spec fn hits(ts: Seq<int>, k: int, j: nat) -> nat
    decreases j,
{
    if j == 0 {
        0
    } else {
        hits(ts, k, (j - 1) as nat) + if ts[j - 1] == k {
            1nat
        } else {
            0nat
        }
    }
}

/// The shares that server `k` receives, in order.
pub open spec fn routed_to(s: Seq<DataShare>, d: ShareDistribution, n: int, k: int) -> Seq<DataShare>
    decreases s.len(),
{
    if s.len() == 0 {
        Seq::empty()
    } else {
        let ts = targets(d, n, s.len() - 1);
        routed_to(s.drop_last(), d, n, k) + Seq::new(hits(ts, k, ts.len()), |j: int| s.last())
    }
}

/// A copy of a share, metadata included.
fn duplicate_share(s: &DataShare) -> (r: DataShare)
    ensures
        same_share(r, *s),
{
    let mut metadata: Vec<(String, String)> = Vec::with_capacity(s.metadata.len());
    let mut i: usize = 0;
    while i < s.metadata.len()
        invariant
            i <= s.metadata@.len(),
            metadata@ == s.metadata@.take(i as int),
        decreases s.metadata.len() - i,
    {
        let entry = (s.metadata[i].0.clone(), s.metadata[i].1.clone());
        metadata.push(entry);
        proof {
            assert(s.metadata@.take(i + 1) == s.metadata@.take(i as int).push(s.metadata@[i as int]));
        }
        i = i + 1;
    }
    proof {
        assert(s.metadata@.take(s.metadata@.len() as int) == s.metadata@);
    }
    DataShare {
        server_id: s.server_id,
        feature_index: s.feature_index,
        share_type: s.share_type,
        value: s.value,
        modulus: s.modulus,
        metadata,
    }
}

/// `(a + b) mod n` for residues `a` and `b`, without overflow.
fn add_mod(a: usize, b: usize, n: usize) -> (r: usize)
    requires
        a < n,
        b < n,
    ensures
        r == (a + b) % (n as int),
        r < n,
{
    if a >= n - b {
        proof {
            lemma_mod_sub_multiples_vanish((a + b) as int, n as int);
            lemma_small_mod((a + b - n) as nat, n as nat);
        }
        a - (n - b)
    } else {
        proof {
            lemma_small_mod((a + b) as nat, n as nat);
        }
        a + b
    }
}

/// Appends `share` to the list of server `key`.
fn push_to(map: &mut HashMap<usize, Vec<DataShare>>, key: usize, share: DataShare)
    ensures
        final(map)@.contains_key(key),
        final(map)@[key]@ == (if old(map)@.contains_key(key) { old(map)@[key]@ } else { Seq::empty() }).push(share),
        forall|k: usize| k != key ==> (#[trigger] final(map)@.contains_key(k) <==> old(map)@.contains_key(k)),
        forall|k: usize| k != key && #[trigger] old(map)@.contains_key(k) ==> final(map)@[k] == old(map)@[k],
{
    broadcast use vstd::std_specs::hash::group_hash_axioms;
    match map.remove(&key) {
        Some(mut v) => {
            v.push(share);
            map.insert(key, v);
        },
        None => {
            let mut v: Vec<DataShare> = Vec::new();
            v.push(share);
            map.insert(key, v);
        },
    }
}

/// One entry per server, and every server `0..n` holds a share.
pub open spec fn valid_distribution(m: Map<usize, Vec<DataShare>>, n: usize) -> bool {
    m.len() == n && forall|k: usize| k < n ==> #[trigger] m.contains_key(k) && m[k]@.len() > 0
}

/// Coordinates how shares are spread and caches the shares of data points.
pub struct ShareManager {
    pub distribution: ShareDistribution,
    pub num_servers: usize,
    pub threshold: usize,
    pub cache: Vec<(String, DataPointShares)>,
}

/// Position of the latest cache entry for `k`, or -1.
pub open spec fn cache_index(e: Seq<(String, DataPointShares)>, k: Seq<char>) -> int
    decreases e.len(),
{
    if e.len() == 0 {
        -1
    } else if e.last().0@ == k {
        e.len() - 1
    } else {
        cache_index(e.drop_last(), k)
    }
}

fn locate_cached(cache: &Vec<(String, DataPointShares)>, key: &str) -> (r: Option<usize>)
    ensures
        match r {
            Some(i) => i == cache_index(cache@, key@) && i < cache@.len(),
            None => cache_index(cache@, key@) == -1,
        },
{
    let wanted = key.to_owned();
    let mut i: usize = cache.len();
    proof {
        assert(cache@.take(i as int) == cache@);
    }
    while i > 0
        invariant
            wanted@ == key@,
            i <= cache@.len(),
            cache_index(cache@, key@) == cache_index(cache@.take(i as int), key@),
        decreases i,
    {
        proof {
            assert(cache@.take(i as int).drop_last() == cache@.take(i - 1));
        }
        if cache[i - 1].0 == wanted {
            return Some(i - 1);
        }
        i = i - 1;
    }
    None
}

impl ShareManager {
    /// A manager with an empty cache.
    pub fn new(distribution: ShareDistribution, num_servers: usize, threshold: usize) -> (r: ShareManager)
        ensures
            r.distribution == distribution,
            r.num_servers == num_servers,
            r.threshold == threshold,
            r.cache@.len() == 0,
    {
        ShareManager { distribution, num_servers, threshold, cache: Vec::new() }
    }

    /// The lists of shares per server under the manager's strategy. A server
    /// appears only if it receives a share. Custom weights must cover every
    /// server and give at least one a positive weight.
    pub fn distribute_shares(&self, shares: Vec<DataShare>) -> (r: HashMap<usize, Vec<DataShare>>)
        requires
            self.num_servers > 0,
            self.distribution is Custom ==> self.distribution->Custom_0@.len() >= self.num_servers && exists|j: int|
                0 <= j < self.num_servers && #[trigger] self.distribution->Custom_0@[j] > 0,
        ensures
            forall|k: usize| #[trigger] r@.contains_key(k) <==> routed_to(shares@, self.distribution, self.num_servers as int, k as int).len() > 0,
            forall|k: usize|
                #[trigger] r@.contains_key(k) ==> same_shares(
                    r@[k]@,
                    routed_to(shares@, self.distribution, self.num_servers as int, k as int),
                ),
    {
        let n = self.num_servers;
        let ghost d = self.distribution;
        let ghost ni = n as int;
        let mut map: HashMap<usize, Vec<DataShare>> = HashMap::new();
        let mut server: usize = 0;
        let mut given: usize = 0;
        let mut i: usize = 0;
        while i < shares.len()
            invariant
                n == self.num_servers,
                n > 0,
                ni == n,
                d == self.distribution,
                self.distribution is Custom ==> self.distribution->Custom_0@.len() >= n,
                self.distribution is Custom ==> (server as int, given as int) == custom_state(self.distribution->Custom_0@, ni, i as nat) && server < n,
                i <= shares@.len(),
                forall|k: usize| #[trigger] map@.contains_key(k) <==> routed_to(shares@.take(i as int), d, ni, k as int).len() > 0,
                forall|k: usize| #[trigger] map@.contains_key(k) ==> same_shares(map@[k]@, routed_to(shares@.take(i as int), d, ni, k as int)),
            decreases shares.len() - i,
        {
            let count: usize = match &self.distribution {
                ShareDistribution::Redundant { redundancy_factor } => *redundancy_factor,
                _ => 1,
            };
            if let ShareDistribution::Custom(weights) = &self.distribution {
                let ghost before = (server as int, given as int);
                if given < weights[server] {
                    given = given + 1;
                } else {
                    server = (server + 1) % n;
                    let ghost start = server as int;
                    let mut fuel: usize = n;
                    while fuel > 0 && weights[server] == 0
                        invariant
                            n > 0,
                            weights@.len() >= n,
                            server < n,
                            fuel <= n,
                            next_positive(weights@, n as int, start, n as nat) == next_positive(weights@, n as int, server as int, fuel as nat),
                        decreases fuel,
                    {
                        server = (server + 1) % n;
                        fuel = fuel - 1;
                    }
                    given = 1;
                }
                proof {
                    assert((server as int, given as int) == custom_place(weights@, ni, before));
                }
            }
            let ghost ts = targets(d, ni, i as int);
            let ghost prefix = shares@.take(i as int);
            proof {
                assert(ts.len() == count);
            }
            let mut j: usize = 0;
            while j < count
                invariant
                    n == self.num_servers,
                    n > 0,
                    ni == n,
                    d == self.distribution,
                    i < shares@.len(),
                    prefix == shares@.take(i as int),
                    ts == targets(d, ni, i as int),
                    ts.len() == count,
                    self.distribution is Custom ==> ts[0] == server && server < n,
                    j <= count,
                    forall|k: usize| #[trigger] map@.contains_key(k) <==> (routed_to(prefix, d, ni, k as int) + Seq::new(hits(ts, k as int, j as nat), |x: int| shares@[i as int])).len() > 0,
                    forall|k: usize| #[trigger] map@.contains_key(k) ==> same_shares(map@[k]@, routed_to(prefix, d, ni, k as int) + Seq::new(hits(ts, k as int, j as nat), |x: int| shares@[i as int])),
                decreases count - j,
            {
                let target: usize = match &self.distribution {
                    ShareDistribution::Even => i % n,
                    ShareDistribution::Weighted => add_mod(i % n, i % n, n),
                    ShareDistribution::Redundant { .. } => add_mod(i % n, j % n, n),
                    ShareDistribution::Custom(_) => server,
                };
                proof {
                    lemma_add_mod_noop(i as int, i as int, ni);
                    lemma_add_mod_noop(i as int, j as int, ni);
                    assert(i as int * 2 == i as int + i as int);
                    assert(target as int == ts[j as int]);
                }
                let copy = duplicate_share(&shares[i]);
                let ghost old_map = map@;
                push_to(&mut map, target, copy);
                proof {
                    let x = shares@[i as int];
                    assert forall|k: usize| #[trigger] map@.contains_key(k) <==> (routed_to(prefix, d, ni, k as int) + Seq::new(hits(ts, k as int, (j + 1) as nat), |y: int| x)).len() > 0 by {
                        if k != target {
                            assert(hits(ts, k as int, (j + 1) as nat) == hits(ts, k as int, j as nat));
                        }
                    }
                    assert forall|k: usize| #[trigger] map@.contains_key(k) implies same_shares(map@[k]@, routed_to(prefix, d, ni, k as int) + Seq::new(hits(ts, k as int, (j + 1) as nat), |y: int| x)) by {
                        let r0 = routed_to(prefix, d, ni, k as int);
                        if k != target {
                            assert(hits(ts, k as int, (j + 1) as nat) == hits(ts, k as int, j as nat));
                        } else {
                            let c = hits(ts, k as int, j as nat);
                            let before_seq = r0 + Seq::new(c, |y: int| x);
                            let after_seq = r0 + Seq::new(c + 1, |y: int| x);
                            assert(after_seq =~= before_seq.push(x));
                            if !old_map.contains_key(k) {
                                assert(before_seq.len() == 0);
                            }
                        }
                    }
                }
                j = j + 1;
            }
            proof {
                let next = shares@.take(i + 1);
                assert(next.drop_last() == prefix);
                assert(next.last() == shares@[i as int]);
                assert forall|k: usize| #[trigger] routed_to(next, d, ni, k as int) == routed_to(prefix, d, ni, k as int) + Seq::new(hits(ts, k as int, count as nat), |x: int| shares@[i as int]) by {}
            }
            i = i + 1;
        }
        proof {
            assert(shares@.take(shares@.len() as int) == shares@);
        }
        map
    }

    /// Caches the shares of a data point, replacing an earlier entry for it.
    pub fn cache_shares(&mut self, data_point_id: String, shares: DataPointShares)
        ensures
            final(self).distribution == old(self).distribution,
            final(self).num_servers == old(self).num_servers,
            final(self).threshold == old(self).threshold,
            cache_index(old(self).cache@, data_point_id@) >= 0 ==> final(self).cache@ == old(self).cache@.update(
                cache_index(old(self).cache@, data_point_id@),
                (data_point_id, shares),
            ),
            cache_index(old(self).cache@, data_point_id@) == -1 ==> final(self).cache@ == old(self).cache@.push((data_point_id, shares)),
    {
        match locate_cached(&self.cache, data_point_id.as_str()) {
            Some(i) => {
                self.cache.set(i, (data_point_id, shares));
            },
            None => {
                self.cache.push((data_point_id, shares));
            },
        }
    }

    /// The cached shares of a data point, if any.
    pub fn get_cached_shares(&self, data_point_id: &str) -> (r: Option<&DataPointShares>)
        ensures
            match r {
                Some(v) => cache_index(self.cache@, data_point_id@) >= 0 && *v == self.cache@[cache_index(self.cache@, data_point_id@)].1,
                None => cache_index(self.cache@, data_point_id@) == -1,
            },
    {
        match locate_cached(&self.cache, data_point_id) {
            Some(i) => Some(&self.cache[i].1),
            None => None,
        }
    }

    /// Drops the cached shares of a data point.
    pub fn remove_cached_shares(&mut self, data_point_id: &str)
        ensures
            final(self).distribution == old(self).distribution,
            final(self).num_servers == old(self).num_servers,
            final(self).threshold == old(self).threshold,
            cache_index(old(self).cache@, data_point_id@) >= 0 ==> final(self).cache@ == old(self).cache@.remove(
                cache_index(old(self).cache@, data_point_id@),
            ),
            cache_index(old(self).cache@, data_point_id@) == -1 ==> final(self).cache@ == old(self).cache@,
    {
        match locate_cached(&self.cache, data_point_id) {
            Some(i) => {
                self.cache.remove(i);
            },
            None => {},
        }
    }

    pub fn clear_cache(&mut self)
        ensures
            final(self).cache@.len() == 0,
            final(self).distribution == old(self).distribution,
            final(self).num_servers == old(self).num_servers,
            final(self).threshold == old(self).threshold,
    {
        self.cache.clear();
    }

    /// The number of cached data points.
    pub fn cache_size(&self) -> (r: usize)
        ensures
            r == self.cache@.len(),
    {
        self.cache.len()
    }

    /// Whether the distribution has one entry per server and every server holds a share.
    pub fn validate_distribution(&self, distribution: &HashMap<usize, Vec<DataShare>>) -> (r: bool)
        ensures
            r == valid_distribution(distribution@, self.num_servers),
    {
        broadcast use vstd::std_specs::hash::group_hash_axioms;
        if distribution.len() != self.num_servers {
            return false;
        }
        let mut k: usize = 0;
        while k < self.num_servers
            invariant
                k <= self.num_servers,
                distribution@.len() == self.num_servers,
                forall|j: usize| j < k ==> #[trigger] distribution@.contains_key(j) && distribution@[j]@.len() > 0,
            decreases self.num_servers - k,
        {
            match distribution.get(&k) {
                Some(v) => {
                    proof {
                        assert(distribution@.contains_key(k) && distribution@[k] == *v);
                    }
                    if v.len() == 0 {
                        return false;
                    }
                    proof {
                        assert(distribution@[k]@.len() > 0);
                        assert forall|j: usize| j < k + 1 implies #[trigger] distribution@.contains_key(j) && distribution@[j]@.len() > 0 by {
                            if j == k {
                                assert(distribution@.contains_key(k));
                            }
                        }
                    }
                },
                None => {
                    proof {
                        assert(!distribution@.contains_key(k));
                    }
                    return false;
                },
            }
            k = k + 1;
        }
        proof {
            assert(k == self.num_servers);
            assert(forall|j: usize| j < self.num_servers ==> #[trigger] distribution@.contains_key(j) && distribution@[j]@.len() > 0);
            assert(valid_distribution(distribution@, self.num_servers));
        }
        true
    }
}

} // verus!
