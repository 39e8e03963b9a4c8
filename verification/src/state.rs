use crate::keys::{key_cmp, lemma_lex_total, lemma_lex_trans, lex_lt, KeyOrd};
use crate::math::Decimal;
use crate::msg::{
    ConfigResponse, OrderBy, StakerInfoResponse, StakersInfoResponse, StateResponse,
};
use vstd::prelude::*;

verus! {

/// Immutable configuration: token identities as canonical key bytes and the
/// distribution schedule, a list of `(start, end, total_amount)` entries.
#[derive(Clone, Debug, PartialEq, Eq)]
pub struct Config {
    pub miaw_token: Vec<u8>,
    pub miaw_lp_token: Vec<u8>,
    pub distribution_schedule: Vec<(u64, u64, u128)>,
}

/// Every schedule entry releases over a non-empty interval. Established at
/// instantiation; the accrual arithmetic divides by `end - start`.
pub open spec fn schedule_wf(sched: Seq<(u64, u64, u128)>) -> bool {
    forall|i: int| 0 <= i < sched.len() ==> (#[trigger] sched[i]).1 > sched[i].0
}

/// Global accounting state, a singleton.
#[derive(Clone, Copy, Debug, PartialEq, Eq, Structural)]
pub struct State {
    pub last_distributed: u64,
    pub total_bond_amount: u128,
    pub global_reward_index: Decimal,
}

impl Default for State {
    /// The state at genesis, before any accrual or bond.
    fn default() -> (r: Self)
        ensures
            r.last_distributed == 0,
            r.total_bond_amount == 0,
            r.global_reward_index.atomics == 0,
    {
        State { last_distributed: 0, total_bond_amount: 0, global_reward_index: Decimal { atomics: 0 } }
    }
}

/// One staker's record.
#[derive(Clone, Copy, Debug, PartialEq, Eq, Structural)]
pub struct StakerInfo {
    pub reward_index: Decimal,
    pub bond_amount: u128,
    pub pending_reward: u128,
}

impl Default for StakerInfo {
    /// The record a staker implicitly has before the first bond.
    fn default() -> (r: Self)
        ensures
            r == (StakerInfo { reward_index: Decimal { atomics: 0 }, bond_amount: 0, pending_reward: 0 }),
    {
        StakerInfo { reward_index: Decimal { atomics: 0 }, bond_amount: 0, pending_reward: 0 }
    }
}

/// The record found for `k`: `None` when the key is absent; otherwise the
/// record at the first occurrence of `k`.
pub open spec fn lookup(s: Seq<(Seq<u8>, StakerInfo)>, k: Seq<u8>) -> Option<StakerInfo>
    decreases s.len(),
{
    if s.len() == 0 {
        None
    } else if s[0].0 == k {
        Some(s[0].1)
    } else {
        lookup(s.skip(1), k)
    }
}

/// The bonded amount of a looked-up record; an absent record bonds nothing.
pub open spec fn bond_of(o: Option<StakerInfo>) -> int {
    match o {
        Some(i) => i.bond_amount as int,
        None => 0,
    }
}

/// Sum of all bonded amounts in the store.
pub open spec fn total_bonds(s: Seq<(Seq<u8>, StakerInfo)>) -> int
    decreases s.len(),
{
    if s.len() == 0 {
        0
    } else {
        s[0].1.bond_amount + total_bonds(s.skip(1))
    }
}

/// Keys appear in strictly increasing lexicographic order (hence uniquely).
pub open spec fn sorted(s: Seq<(Seq<u8>, StakerInfo)>) -> bool {
    forall|i: int, j: int| 0 <= i < j < s.len() ==> lex_lt(#[trigger] s[i].0, #[trigger] s[j].0)
}

/// The persisted staker records, one per staker key, held in key order.
pub struct Stakers {
    entries: Vec<(Vec<u8>, StakerInfo)>,
}

impl View for Stakers {
    type V = Seq<(Seq<u8>, StakerInfo)>;

    closed spec fn view(&self) -> Seq<(Seq<u8>, StakerInfo)> {
        Seq::new(self.entries@.len(), |i: int| (self.entries@[i].0@, self.entries@[i].1))
    }
}

proof fn lemma_total_bonds_nonneg(s: Seq<(Seq<u8>, StakerInfo)>)
    ensures
        0 <= total_bonds(s),
    decreases s.len(),
{
    if s.len() > 0 {
        lemma_total_bonds_nonneg(s.skip(1));
    }
}

/// A key that looks up to nothing occurs nowhere in the store: a record an
/// operation has deleted cannot appear in any listing page, which only ever
/// reports records of the store.
pub proof fn lemma_lookup_none_means_absent(s: Seq<(Seq<u8>, StakerInfo)>, k: Seq<u8>)
    requires
        lookup(s, k) == None::<StakerInfo>,
    ensures
        forall|i: int| 0 <= i < s.len() ==> (#[trigger] s[i]).0 != k,
    decreases s.len(),
{
    if s.len() > 0 {
        lemma_lookup_none_means_absent(s.skip(1), k);
        assert forall|i: int| 0 <= i < s.len() implies (#[trigger] s[i]).0 != k by {
            if i > 0 {
                assert(s.skip(1)[i - 1] == s[i]);
            }
        }
    }
}

/// No single record bonds more than the whole store.
pub proof fn lemma_lookup_le_total(s: Seq<(Seq<u8>, StakerInfo)>, k: Seq<u8>)
    ensures
        bond_of(lookup(s, k)) <= total_bonds(s),
        0 <= bond_of(lookup(s, k)),
    decreases s.len(),
{
    if s.len() == 0 {
    } else if s[0].0 == k {
        lemma_total_bonds_nonneg(s.skip(1));
    } else {
        lemma_lookup_le_total(s.skip(1), k);
    }
}

proof fn lemma_lookup_update(s: Seq<(Seq<u8>, StakerInfo)>, i: int, k: Seq<u8>, v: StakerInfo)
    requires
        0 <= i < s.len(),
        s[i].0 == k,
        forall|j: int| 0 <= j < i ==> (#[trigger] s[j]).0 != k,
    ensures
        lookup(s.update(i, (k, v)), k) == Some(v),
        forall|q: Seq<u8>| q != k ==> lookup(s.update(i, (k, v)), q) == lookup(s, q),
    decreases s.len(),
{
    let t = s.update(i, (k, v));
    if i == 0 {
        assert(t.skip(1) =~= s.skip(1));
        assert(lookup(t, k) == Some(v));
        assert forall|q: Seq<u8>| q != k implies lookup(t, q) == lookup(s, q) by {
            assert(lookup(t, q) == lookup(t.skip(1), q));
            assert(lookup(s, q) == lookup(s.skip(1), q));
        }
    } else {
        assert(t[0] == s[0]);
        assert(t.skip(1) =~= s.skip(1).update(i - 1, (k, v)));
        lemma_lookup_update(s.skip(1), i - 1, k, v);
        assert(s[0].0 != k);
        assert(lookup(t, k) == lookup(t.skip(1), k));
        assert forall|q: Seq<u8>| q != k implies lookup(t, q) == lookup(s, q) by {
            if s[0].0 != q {
                assert(lookup(t, q) == lookup(t.skip(1), q));
                assert(lookup(s, q) == lookup(s.skip(1), q));
            }
        }
    }
}

proof fn lemma_total_update(s: Seq<(Seq<u8>, StakerInfo)>, i: int, kv: (Seq<u8>, StakerInfo))
    requires
        0 <= i < s.len(),
    ensures
        total_bonds(s.update(i, kv)) == total_bonds(s) - s[i].1.bond_amount + kv.1.bond_amount,
    decreases s.len(),
{
    let t = s.update(i, kv);
    if i == 0 {
        assert(t.skip(1) =~= s.skip(1));
    } else {
        assert(t[0] == s[0]);
        assert(t.skip(1) =~= s.skip(1).update(i - 1, kv));
        lemma_total_update(s.skip(1), i - 1, kv);
    }
}

proof fn lemma_lookup_insert(s: Seq<(Seq<u8>, StakerInfo)>, i: int, kv: (Seq<u8>, StakerInfo))
    requires
        0 <= i <= s.len(),
        forall|j: int| 0 <= j < i ==> (#[trigger] s[j]).0 != kv.0,
    ensures
        lookup(s.insert(i, kv), kv.0) == Some(kv.1),
        forall|q: Seq<u8>| q != kv.0 ==> lookup(s.insert(i, kv), q) == lookup(s, q),
    decreases s.len(),
{
    let t = s.insert(i, kv);
    s.insert_ensures(i, kv);
    if i == 0 {
        assert(t[0] == kv);
        assert(t.skip(1) =~= s);
        assert(lookup(t, kv.0) == Some(kv.1));
        assert forall|q: Seq<u8>| q != kv.0 implies lookup(t, q) == lookup(s, q) by {
            assert(lookup(t, q) == lookup(t.skip(1), q));
        }
    } else {
        assert(t[0] == s[0]);
        assert(t.skip(1) =~= s.skip(1).insert(i - 1, kv)) by {
            s.skip(1).insert_ensures(i - 1, kv);
        }
        lemma_lookup_insert(s.skip(1), i - 1, kv);
        assert(s[0].0 != kv.0);
        assert(lookup(t, kv.0) == lookup(t.skip(1), kv.0));
        assert forall|q: Seq<u8>| q != kv.0 implies lookup(t, q) == lookup(s, q) by {
            if s[0].0 != q {
                assert(lookup(t, q) == lookup(t.skip(1), q));
                assert(lookup(s, q) == lookup(s.skip(1), q));
            }
        }
    }
}

proof fn lemma_total_insert(s: Seq<(Seq<u8>, StakerInfo)>, i: int, kv: (Seq<u8>, StakerInfo))
    requires
        0 <= i <= s.len(),
    ensures
        total_bonds(s.insert(i, kv)) == total_bonds(s) + kv.1.bond_amount,
    decreases s.len(),
{
    let t = s.insert(i, kv);
    s.insert_ensures(i, kv);
    if i == 0 {
        assert(t[0] == kv);
        assert(t.skip(1) =~= s);
    } else {
        assert(t[0] == s[0]);
        assert(t.skip(1) =~= s.skip(1).insert(i - 1, kv)) by {
            s.skip(1).insert_ensures(i - 1, kv);
        }
        lemma_total_insert(s.skip(1), i - 1, kv);
    }
}

proof fn lemma_lookup_remove(s: Seq<(Seq<u8>, StakerInfo)>, i: int)
    requires
        0 <= i < s.len(),
        forall|j: int| 0 <= j < s.len() && j != i ==> (#[trigger] s[j]).0 != s[i].0,
    ensures
        lookup(s.remove(i), s[i].0) == None::<StakerInfo>,
        forall|q: Seq<u8>| q != s[i].0 ==> lookup(s.remove(i), q) == lookup(s, q),
    decreases s.len(),
{
    let t = s.remove(i);
    s.remove_ensures(i);
    if i == 0 {
        assert(t =~= s.skip(1));
        assert forall|j: int| 0 <= j < s.skip(1).len() implies (#[trigger] s.skip(1)[j]).0
            != s[0].0 by {
            assert(s.skip(1)[j] == s[j + 1]);
        }
        lemma_lookup_absent(s.skip(1), s[0].0);
        assert forall|q: Seq<u8>| q != s[i].0 implies lookup(t, q) == lookup(s, q) by {
            assert(lookup(s, q) == lookup(s.skip(1), q));
        }
    } else {
        assert(t[0] == s[0]);
        assert(t.skip(1) =~= s.skip(1).remove(i - 1)) by {
            s.skip(1).remove_ensures(i - 1);
        }
        assert(s.skip(1)[i - 1] == s[i]);
        lemma_lookup_remove(s.skip(1), i - 1);
        assert(s[0].0 != s[i].0);
        assert(lookup(t, s[i].0) == lookup(t.skip(1), s[i].0));
        assert forall|q: Seq<u8>| q != s[i].0 implies lookup(t, q) == lookup(s, q) by {
            if s[0].0 != q {
                assert(lookup(t, q) == lookup(t.skip(1), q));
                assert(lookup(s, q) == lookup(s.skip(1), q));
            }
        }
    }
}

/// A key that occurs nowhere in the store looks up to nothing.
proof fn lemma_lookup_absent(s: Seq<(Seq<u8>, StakerInfo)>, k: Seq<u8>)
    requires
        forall|j: int| 0 <= j < s.len() ==> (#[trigger] s[j]).0 != k,
    ensures
        lookup(s, k) == None::<StakerInfo>,
    decreases s.len(),
{
    if s.len() > 0 {
        lemma_lookup_absent(s.skip(1), k);
    }
}

proof fn lemma_total_remove(s: Seq<(Seq<u8>, StakerInfo)>, i: int)
    requires
        0 <= i < s.len(),
    ensures
        total_bonds(s.remove(i)) == total_bonds(s) - s[i].1.bond_amount,
    decreases s.len(),
{
    let t = s.remove(i);
    s.remove_ensures(i);
    if i == 0 {
        assert(t =~= s.skip(1));
    } else {
        assert(t[0] == s[0]);
        assert(t.skip(1) =~= s.skip(1).remove(i - 1)) by {
            s.skip(1).remove_ensures(i - 1);
        }
        lemma_total_remove(s.skip(1), i - 1);
    }
}

/// When the store is sorted, a looked-up key occurs at most once; knowing
/// where it sits pins the lookup result.
proof fn lemma_lookup_at(s: Seq<(Seq<u8>, StakerInfo)>, i: int)
    requires
        0 <= i < s.len(),
        forall|j: int| 0 <= j < i ==> (#[trigger] s[j]).0 != s[i].0,
    ensures
        lookup(s, s[i].0) == Some(s[i].1),
    decreases s.len(),
{
    if i == 0 {
    } else {
        lemma_lookup_at(s.skip(1), i - 1);
    }
}

/// Copies a vector of plain values.
fn copy_vec<T: Copy>(v: &Vec<T>) -> (r: Vec<T>)
    ensures
        r@ == v@,
{
    let mut r: Vec<T> = Vec::new();
    let mut i: usize = 0;
    while i < v.len()
        invariant
            i <= v@.len(),
            r@ == v@.take(i as int),
        decreases v@.len() - i,
    {
        r.push(v[i]);
        proof {
            assert(v@.take(i + 1 as int) =~= v@.take(i as int).push(v@[i as int]));
        }
        i = i + 1;
    }
    proof {
        assert(v@.take(v@.len() as int) =~= v@);
    }
    r
}

impl Stakers {
    /// Keys are held in strictly increasing lexicographic order.
    pub open spec fn wf(&self) -> bool {
        sorted(self@)
    }

    /// An empty store.
    pub fn new() -> (r: Stakers)
        ensures
            r@ == Seq::<(Seq<u8>, StakerInfo)>::empty(),
            r.wf(),
    {
        let r = Stakers { entries: Vec::new() };
        proof {
            assert(r@ =~= Seq::<(Seq<u8>, StakerInfo)>::empty());
        }
        r
    }

    /// Position of `key`, or where it would be inserted: every record before
    /// the returned position has a smaller key; `found` tells whether the
    /// record at the position carries `key` itself.
    fn locate(&self, key: &Vec<u8>) -> (r: (usize, bool))
        ensures
            r.0 <= self@.len(),
            forall|j: int| 0 <= j < r.0 ==> lex_lt((#[trigger] self@[j]).0, key@),
            r.1 ==> r.0 < self@.len() && self@[r.0 as int].0 == key@,
            !r.1 ==> r.0 == self@.len() || lex_lt(key@, self@[r.0 as int].0),
    {
        let n = self.entries.len();
        let mut i: usize = 0;
        while i < n
            invariant
                i <= n,
                n == self@.len(),
                self@.len() == self.entries@.len(),
                forall|j: int| 0 <= j < i ==> lex_lt((#[trigger] self@[j]).0, key@),
                forall|j: int| 0 <= j < self@.len() ==> self@[j].0 == (#[trigger] self.entries@[j]).0@,
            decreases n - i,
        {
            let o = key_cmp(&self.entries[i].0, key);
            match o {
                KeyOrd::Less => {
                    i = i + 1;
                }
                KeyOrd::Equal => {
                    return (i, true);
                }
                KeyOrd::Greater => {
                    return (i, false);
                }
            }
        }
        (i, false)
    }

    /// Reads the record stored for `key`, if any.
    pub fn get(&self, key: &Vec<u8>) -> (r: Option<StakerInfo>)
        requires
            self.wf(),
        ensures
            r == lookup(self@, key@),
    {
        let (pos, found) = self.locate(key);
        proof {
            self.lemma_locate_lookup(key@, pos as int, found);
        }
        if found {
            Some(self.entries[pos].1)
        } else {
            None
        }
    }

    /// From what `locate` guarantees, concludes what `lookup` returns.
    proof fn lemma_locate_lookup(&self, k: Seq<u8>, pos: int, found: bool)
        requires
            self.wf(),
            0 <= pos <= self@.len(),
            forall|j: int| 0 <= j < pos ==> lex_lt((#[trigger] self@[j]).0, k),
            found ==> pos < self@.len() && self@[pos].0 == k,
            !found ==> pos == self@.len() || lex_lt(k, self@[pos].0),
        ensures
            found ==> lookup(self@, k) == Some(self@[pos].1),
            !found ==> lookup(self@, k) == None::<StakerInfo>,
            forall|j: int| 0 <= j < self@.len() && j != pos ==> (#[trigger] self@[j]).0 != k,
    {
        let s = self@;
        assert forall|j: int| 0 <= j < s.len() && j != pos implies (#[trigger] s[j]).0 != k by {
            if j < pos {
                lemma_lex_total(s[j].0, k);
            } else {
                // pos < j: the key at pos (or k itself) is below the key at j.
                if found {
                    assert(lex_lt(s[pos].0, s[j].0));
                    lemma_lex_total(k, s[j].0);
                } else {
                    assert(pos < s.len());
                    if pos < j {
                        assert(lex_lt(s[pos].0, s[j].0));
                        lemma_lex_trans(k, s[pos].0, s[j].0);
                    }
                    lemma_lex_total(k, s[j].0);
                }
            }
        }
        if found {
            lemma_lookup_at(s, pos);
        } else {
            assert forall|j: int| 0 <= j < s.len() implies (#[trigger] s[j]).0 != k by {
                if j < pos {
                    lemma_lex_total(s[j].0, k);
                } else {
                    if pos < j {
                        lemma_lex_trans(k, s[pos].0, s[j].0);
                    }
                    lemma_lex_total(k, s[j].0);
                }
            }
            lemma_lookup_absent(s, k);
        }
    }

    /// Writes `info` under `key`, replacing any previous record.
    pub fn save(&mut self, key: &Vec<u8>, info: StakerInfo)
        requires
            old(self).wf(),
        ensures
            final(self).wf(),
            lookup(final(self)@, key@) == Some(info),
            forall|q: Seq<u8>| q != key@ ==> lookup(final(self)@, q) == lookup(old(self)@, q),
            total_bonds(final(self)@) == total_bonds(old(self)@) - bond_of(
                lookup(old(self)@, key@),
            ) + info.bond_amount,
    {
        let (pos, found) = self.locate(key);
        proof {
            self.lemma_locate_lookup(key@, pos as int, found);
        }
        let ghost s = self@;
        if found {
            self.entries.set(pos, (copy_vec(key), info));
            proof {
                assert(self@ =~= s.update(pos as int, (key@, info)));
                lemma_lookup_update(s, pos as int, key@, info);
                lemma_total_update(s, pos as int, (key@, info));
                assert forall|i: int, j: int|
                    0 <= i < j < self@.len() implies lex_lt(
                    (#[trigger] self@[i]).0,
                    (#[trigger] self@[j]).0,
                ) by {
                    assert(self@[i].0 == s[i].0);
                    assert(self@[j].0 == s[j].0);
                }
            }
        } else {
            self.entries.insert(pos, (copy_vec(key), info));
            proof {
                s.insert_ensures(pos as int, (key@, info));
                assert(self@ =~= s.insert(pos as int, (key@, info)));
                lemma_lookup_insert(s, pos as int, (key@, info));
                lemma_total_insert(s, pos as int, (key@, info));
                let t = self@;
                assert forall|i: int, j: int|
                    0 <= i < j < t.len() implies lex_lt((#[trigger] t[i]).0, (#[trigger] t[j]).0) by {
                    if j < pos {
                        assert(t[i].0 == s[i].0 && t[j].0 == s[j].0);
                    } else if j == pos {
                        assert(t[j].0 == key@);
                        assert(lex_lt(s[i].0, key@));
                    } else {
                        // j > pos: the key at j comes from position j - 1.
                        assert(t[j].0 == s[j - 1].0);
                        assert(pos < s.len() ==> lex_lt(key@, s[pos as int].0));
                        if i < pos {
                            if pos <= j - 2 {
                                assert(lex_lt(s[pos as int].0, s[j - 1].0));
                                lemma_lex_trans(s[i].0, key@, s[pos as int].0);
                                lemma_lex_trans(s[i].0, s[pos as int].0, s[j - 1].0);
                            } else {
                                lemma_lex_trans(s[i].0, key@, s[j - 1].0);
                            }
                        } else if i == pos {
                            assert(t[i].0 == key@);
                            if pos <= j - 2 {
                                lemma_lex_trans(key@, s[pos as int].0, s[j - 1].0);
                            }
                        } else {
                            assert(t[i].0 == s[i - 1].0);
                            assert(lex_lt(s[i - 1].0, s[j - 1].0));
                        }
                    }
                }
            }
        }
    }

    /// Deletes the record stored for `key`, if any.
    pub fn remove(&mut self, key: &Vec<u8>)
        requires
            old(self).wf(),
        ensures
            final(self).wf(),
            lookup(final(self)@, key@) == None::<StakerInfo>,
            forall|q: Seq<u8>| q != key@ ==> lookup(final(self)@, q) == lookup(old(self)@, q),
            total_bonds(final(self)@) == total_bonds(old(self)@) - bond_of(
                lookup(old(self)@, key@),
            ),
    {
        let (pos, found) = self.locate(key);
        proof {
            self.lemma_locate_lookup(key@, pos as int, found);
        }
        let ghost s = self@;
        if found {
            let _ = self.entries.remove(pos);
            proof {
                s.remove_ensures(pos as int);
                assert(self@ =~= s.remove(pos as int));
                lemma_lookup_remove(s, pos as int);
                lemma_total_remove(s, pos as int);
                let t = self@;
                assert forall|i: int, j: int|
                    0 <= i < j < t.len() implies lex_lt((#[trigger] t[i]).0, (#[trigger] t[j]).0) by {
                    let i0 = if i < pos { i } else { i + 1 };
                    let j0 = if j < pos { j } else { j + 1 };
                    assert(t[i].0 == s[i0].0);
                    assert(t[j].0 == s[j0].0);
                    assert(lex_lt(s[i0].0, s[j0].0));
                }
            }
        }
    }
}

impl Config {
    /// The configuration as a response value.
    pub fn as_res(&self) -> (r: ConfigResponse)
        ensures
            r.miaw_token@ == self.miaw_token@,
            r.miaw_lp_token@ == self.miaw_lp_token@,
            r.distribution_schedule@ == self.distribution_schedule@,
    {
        ConfigResponse {
            miaw_token: copy_vec(&self.miaw_token),
            miaw_lp_token: copy_vec(&self.miaw_lp_token),
            distribution_schedule: copy_vec(&self.distribution_schedule),
        }
    }
}

impl State {
    /// The global state as a response value.
    pub fn as_res(&self) -> (r: StateResponse)
        ensures
            r == (StateResponse {
                last_distributed: self.last_distributed,
                total_bond_amount: self.total_bond_amount,
                global_reward_index: self.global_reward_index,
            }),
    {
        StateResponse {
            last_distributed: self.last_distributed,
            total_bond_amount: self.total_bond_amount,
            global_reward_index: self.global_reward_index,
        }
    }
}

impl StakerInfo {
    /// The record as a response value for the staker stored under `staker`.
    pub fn as_res(&self, staker: &Vec<u8>) -> (r: StakerInfoResponse)
        ensures
            r.staker@ == staker@,
            r.reward_index == self.reward_index,
            r.bond_amount == self.bond_amount,
            r.pending_reward == self.pending_reward,
    {
        StakerInfoResponse {
            staker: copy_vec(staker),
            reward_index: self.reward_index,
            bond_amount: self.bond_amount,
            pending_reward: self.pending_reward,
        }
    }
}

/// Index of the first record whose key is lexicographically above `k`
/// (in a sorted store: the number of keys at or below `k`).
pub open spec fn first_above(s: Seq<(Seq<u8>, StakerInfo)>, k: Seq<u8>) -> int
    decreases s.len(),
{
    if s.len() == 0 {
        0
    } else if !lex_lt(k, s[0].0) {
        1 + first_above(s.skip(1), k)
    } else {
        0
    }
}

/// Index of the first record whose key is at or above `k`
/// (in a sorted store: the number of keys below `k`).
pub open spec fn first_at_or_above(s: Seq<(Seq<u8>, StakerInfo)>, k: Seq<u8>) -> int
    decreases s.len(),
{
    if s.len() == 0 {
        0
    } else if lex_lt(s[0].0, k) {
        1 + first_at_or_above(s.skip(1), k)
    } else {
        0
    }
}

/// The page size a listing uses: the given limit, or 10 when none is given,
/// capped at 30.
pub open spec fn page_limit(limit: Option<u32>) -> int {
    let l: int = match limit {
        Some(v) => v as int,
        None => 10,
    };
    if l < 30 {
        l
    } else {
        30
    }
}

/// `res` reports the record `(key, info)` with rewards settled against `st`.
pub open spec fn res_matches(
    st: State,
    key: Seq<u8>,
    info: StakerInfo,
    res: StakerInfoResponse,
) -> bool {
    &&& res.staker@ == key
    &&& res.reward_index == crate::handle::settled(st, info).reward_index
    &&& res.bond_amount == crate::handle::settled(st, info).bond_amount
    &&& res.pending_reward == crate::handle::settled(st, info).pending_reward
}

/// What a paginated listing of the store `s` against the settled state `st`
/// returns: `start_after` is exclusive in both directions; ascending takes
/// the next records upward in key order, descending the next ones downward.
pub open spec fn page_spec(
    s: Seq<(Seq<u8>, StakerInfo)>,
    st: State,
    start_after: Option<Vec<u8>>,
    limit: Option<u32>,
    order_by: Option<OrderBy>,
    r: StakersInfoResponse,
) -> bool {
    let lim = page_limit(limit);
    match order_by {
        Option::Some(OrderBy::Asc) => {
            let lo = match start_after {
                Some(k) => first_above(s, k@),
                None => 0,
            };
            let hi = if lo + lim < s.len() {
                lo + lim
            } else {
                s.len() as int
            };
            &&& r.stakers@.len() == hi - lo
            &&& forall|j: int|
                0 <= j < hi - lo ==> res_matches(st, s[lo + j].0, s[lo + j].1, #[trigger] r.stakers@[j])
        },
        _ => {
            let hi = match start_after {
                Some(k) => first_at_or_above(s, k@),
                None => s.len() as int,
            };
            let lo = if hi - lim > 0 {
                hi - lim
            } else {
                0
            };
            &&& r.stakers@.len() == hi - lo
            &&& forall|j: int|
                0 <= j < hi - lo ==> res_matches(
                    st,
                    s[hi - 1 - j].0,
                    s[hi - 1 - j].1,
                    #[trigger] r.stakers@[j],
                )
        },
    }
}

proof fn lemma_first_above_char(s: Seq<(Seq<u8>, StakerInfo)>, k: Seq<u8>, m: int)
    requires
        0 <= m <= s.len(),
        forall|j: int| 0 <= j < m ==> !lex_lt(k, (#[trigger] s[j]).0),
        m == s.len() || lex_lt(k, s[m].0),
    ensures
        first_above(s, k) == m,
    decreases s.len(),
{
    if m == 0 {
    } else {
        assert(!lex_lt(k, s[0].0));
        assert forall|j: int| 0 <= j < m - 1 implies !lex_lt(k, (#[trigger] s.skip(1)[j]).0) by {
            assert(s.skip(1)[j] == s[j + 1]);
        }
        if m < s.len() {
            assert(s.skip(1)[m - 1] == s[m]);
        }
        lemma_first_above_char(s.skip(1), k, m - 1);
    }
}

proof fn lemma_first_at_or_above_char(s: Seq<(Seq<u8>, StakerInfo)>, k: Seq<u8>, m: int)
    requires
        0 <= m <= s.len(),
        forall|j: int| 0 <= j < m ==> lex_lt((#[trigger] s[j]).0, k),
        m == s.len() || !lex_lt(s[m].0, k),
    ensures
        first_at_or_above(s, k) == m,
    decreases s.len(),
{
    if m == 0 {
    } else {
        assert(lex_lt(s[0].0, k));
        assert forall|j: int| 0 <= j < m - 1 implies lex_lt((#[trigger] s.skip(1)[j]).0, k) by {
            assert(s.skip(1)[j] == s[j + 1]);
        }
        if m < s.len() {
            assert(s.skip(1)[m - 1] == s[m]);
        }
        lemma_first_at_or_above_char(s.skip(1), k, m - 1);
    }
}

/// First position whose key is lexicographically above `k`, scanning upward.
fn scan_above(entries: &Vec<(Vec<u8>, StakerInfo)>, k: &Vec<u8>) -> (lo: usize)
    ensures
        lo <= entries@.len(),
        forall|j: int| 0 <= j < lo ==> !lex_lt(k@, (#[trigger] entries@[j]).0@),
        lo == entries@.len() || lex_lt(k@, entries@[lo as int].0@),
{
    let n = entries.len();
    let mut lo: usize = 0;
    while lo < n
        invariant
            lo <= n,
            n == entries@.len(),
            forall|j: int| 0 <= j < lo ==> !lex_lt(k@, (#[trigger] entries@[j]).0@),
        decreases n - lo,
    {
        let o = key_cmp(k, &entries[lo].0);
        match o {
            KeyOrd::Less => {
                return lo;
            },
            _ => {
                lo = lo + 1;
            },
        }
    }
    lo
}

/// First position whose key is at or above `k`, scanning upward.
fn scan_at_or_above(entries: &Vec<(Vec<u8>, StakerInfo)>, k: &Vec<u8>) -> (hi: usize)
    ensures
        hi <= entries@.len(),
        forall|j: int| 0 <= j < hi ==> lex_lt((#[trigger] entries@[j]).0@, k@),
        hi == entries@.len() || !lex_lt(entries@[hi as int].0@, k@),
{
    let n = entries.len();
    let mut hi: usize = 0;
    while hi < n
        invariant
            hi <= n,
            n == entries@.len(),
            forall|j: int| 0 <= j < hi ==> lex_lt((#[trigger] entries@[j]).0@, k@),
        decreases n - hi,
    {
        let o = key_cmp(&entries[hi].0, k);
        match o {
            KeyOrd::Less => {
                hi = hi + 1;
            },
            _ => {
                return hi;
            },
        }
    }
    hi
}

/// Lists stakers in key order, bounded by the pagination parameters, each
/// with rewards settled against `state` on a throwaway copy: listing
/// mutates nothing. `start_after` is exclusive in both directions; the
/// default direction is descending.
pub fn read_stakers_with_updated_reward(
    stakers: &Stakers,
    state: &State,
    start_after: Option<Vec<u8>>,
    limit: Option<u32>,
    order_by: Option<OrderBy>,
) -> (r: StakersInfoResponse)
    requires
        stakers.wf(),
        crate::handle::all_settle_ok(*state, stakers@),
    ensures
        page_spec(stakers@, *state, start_after, limit, order_by, r),
{
    let lim: usize = match limit {
        Some(v) => if v < 30 {
            v as usize
        } else {
            30
        },
        None => 10,
    };
    let n = stakers.entries.len();
    let asc = match order_by {
        Some(OrderBy::Asc) => true,
        _ => false,
    };
    let mut out: Vec<StakerInfoResponse> = Vec::new();
    if asc {
        let lo: usize = match &start_after {
            Some(k) => {
                let b = scan_above(&stakers.entries, k);
                proof {
                    lemma_first_above_char(stakers@, k@, b as int);
                }
                b
            },
            None => 0,
        };
        let ghost glo = lo as int;
        let ghost ghi: int = if glo + (lim as int) < stakers@.len() {
            glo + (lim as int)
        } else {
            stakers@.len() as int
        };
        let mut i = lo;
        while i < n && out.len() < lim
            invariant
                glo <= i <= n,
                n == stakers@.len(),
                crate::handle::all_settle_ok(*state, stakers@),
                out@.len() == i - glo,
                out@.len() <= lim,
                forall|j: int|
                    0 <= j < out@.len() ==> res_matches(
                        *state,
                        stakers@[glo + j].0,
                        stakers@[glo + j].1,
                        #[trigger] out@[j],
                    ),
            decreases n - i,
        {
            let e = &stakers.entries[i];
            proof {
                assert(stakers@[i as int] == (e.0@, e.1));
                assert(crate::handle::settle_ok(*state, stakers@[i as int].1));
            }
            let mut info = e.1;
            crate::handle::compute_staker_reward(state, &mut info);
            out.push(info.as_res(&e.0));
            i = i + 1;
        }
        StakersInfoResponse { stakers: out }
    } else {
        let hi: usize = match &start_after {
            Some(k) => {
                let b = scan_at_or_above(&stakers.entries, k);
                proof {
                    lemma_first_at_or_above_char(stakers@, k@, b as int);
                }
                b
            },
            None => n,
        };
        let ghost ghi = hi as int;
        let ghost glo: int = if ghi - (lim as int) > 0 {
            ghi - (lim as int)
        } else {
            0
        };
        let mut i = hi;
        while i > 0 && out.len() < lim
            invariant
                0 <= i <= ghi,
                ghi <= n,
                n == stakers@.len(),
                crate::handle::all_settle_ok(*state, stakers@),
                out@.len() == ghi - i,
                out@.len() <= lim,
                forall|j: int|
                    0 <= j < out@.len() ==> res_matches(
                        *state,
                        stakers@[ghi - 1 - j].0,
                        stakers@[ghi - 1 - j].1,
                        #[trigger] out@[j],
                    ),
            decreases i,
        {
            i = i - 1;
            let e = &stakers.entries[i];
            proof {
                assert(stakers@[i as int] == (e.0@, e.1));
                assert(crate::handle::settle_ok(*state, stakers@[i as int].1));
            }
            let mut info = e.1;
            crate::handle::compute_staker_reward(state, &mut info);
            out.push(info.as_res(&e.0));
        }
        StakersInfoResponse { stakers: out }
    }
}

} // verus!
