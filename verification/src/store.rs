//! The accumulation store: a mapping from string keys to tagged slots.
//!
//! Each slot holds the domain-tagged accumulated value and the ordinal of
//! the last write. A merge combines an incoming value with the slot under
//! its key; the first write to a key binds the key to the value's domain,
//! and every later merge must use the same domain or is refused with the
//! slot left unchanged.

use vstd::prelude::*;

use crate::value::{
    Tag, StoreError, StoredVal, ValM, BigIntVal, BigDecVal, model_tag, dec_max_scale, dec_align,
    dec_add_m, dec_le,
};
use crate::bigops::{biguint_add, biguint_min, bigdec_add, bigdec_min};
use crate::digits::pow10;

verus! {

/// The mathematical content of a slot: the accumulated value and the
/// ordinal of the last write.
pub struct SlotM {
    pub val: ValM,
    pub ord: u64,
}

/// The key is either absent or already bound to domain `t`.
pub open spec fn tag_ok(m: Map<Seq<char>, SlotM>, k: Seq<char>, t: Tag) -> bool {
    m.contains_key(k) ==> model_tag(m[k].val) == t
}

/// The Int64 value under `k`, or the additive identity when absent.
pub open spec fn cur_i64(m: Map<Seq<char>, SlotM>, k: Seq<char>) -> int {
    if m.contains_key(k) {
        match m[k].val {
            ValM::I64(x) => x,
            _ => 0,
        }
    } else {
        0
    }
}

/// The BigInt value under `k`, or the additive identity when absent.
pub open spec fn cur_big(m: Map<Seq<char>, SlotM>, k: Seq<char>) -> nat {
    if m.contains_key(k) {
        match m[k].val {
            ValM::Big(x) => x,
            _ => 0,
        }
    } else {
        0
    }
}

/// The BigDecimal mantissa under `k`, or 0 when absent.
pub open spec fn cur_dec_m(m: Map<Seq<char>, SlotM>, k: Seq<char>) -> int {
    if m.contains_key(k) {
        match m[k].val {
            ValM::Dec(x, _) => x,
            _ => 0,
        }
    } else {
        0
    }
}

/// The BigDecimal scale under `k`, or 0 when absent.
pub open spec fn cur_dec_s(m: Map<Seq<char>, SlotM>, k: Seq<char>) -> int {
    if m.contains_key(k) {
        match m[k].val {
            ValM::Dec(_, s) => s,
            _ => 0,
        }
    } else {
        0
    }
}

/// What a `set_min` merge of Int64 value `v` leaves under `k`.
pub open spec fn min_i64_result(m: Map<Seq<char>, SlotM>, k: Seq<char>, v: int) -> int {
    if m.contains_key(k) {
        if cur_i64(m, k) <= v {
            cur_i64(m, k)
        } else {
            v
        }
    } else {
        v
    }
}

/// What a `set_min` merge of BigInt value `v` leaves under `k`.
pub open spec fn min_big_result(m: Map<Seq<char>, SlotM>, k: Seq<char>, v: nat) -> nat {
    if m.contains_key(k) {
        if cur_big(m, k) <= v {
            cur_big(m, k)
        } else {
            v
        }
    } else {
        v
    }
}

/// The mantissa a `set_min` merge of BigDecimal value `vm / 10^vs` leaves
/// under `k`.
pub open spec fn min_dec_m(m: Map<Seq<char>, SlotM>, k: Seq<char>, vm: int, vs: int) -> int {
    if m.contains_key(k) {
        if dec_le(cur_dec_m(m, k), cur_dec_s(m, k), vm, vs) {
            cur_dec_m(m, k)
        } else {
            vm
        }
    } else {
        vm
    }
}

/// The scale a `set_min` merge of BigDecimal value `vm / 10^vs` leaves
/// under `k`.
pub open spec fn min_dec_s(m: Map<Seq<char>, SlotM>, k: Seq<char>, vm: int, vs: int) -> int {
    if m.contains_key(k) {
        if dec_le(cur_dec_m(m, k), cur_dec_s(m, k), vm, vs) {
            cur_dec_s(m, k)
        } else {
            vs
        }
    } else {
        vs
    }
}

struct Entry {
    key: String,
    val: StoredVal,
    ord: u64,
}

spec fn slot_of(e: Entry) -> SlotM {
    SlotM { val: e.val.model(), ord: e.ord }
}

spec fn map_of(s: Seq<Entry>) -> Map<Seq<char>, SlotM>
    decreases s.len(),
{
    if s.len() == 0 {
        Map::empty()
    } else {
        map_of(s.drop_last()).insert(s.last().key@, slot_of(s.last()))
    }
}

spec fn keys_unique(s: Seq<Entry>) -> bool {
    forall|i: int, j: int|
        #![trigger s[i].key@, s[j].key@]
        0 <= i < j < s.len() ==> s[i].key@ != s[j].key@
}

spec fn entries_wf(s: Seq<Entry>) -> bool {
    forall|i: int| 0 <= i < s.len() ==> (#[trigger] s[i].val).wf()
}

proof fn lemma_map_of_contains(s: Seq<Entry>, k: Seq<char>)
    ensures
        map_of(s).contains_key(k) <==> exists|i: int| 0 <= i < s.len() && s[i].key@ == k,
    decreases s.len(),
{
    if s.len() > 0 {
        lemma_map_of_contains(s.drop_last(), k);
        if s.last().key@ == k {
            assert(s[s.len() - 1].key@ == k);
        } else {
            if map_of(s).contains_key(k) {
                let i = choose|i: int| 0 <= i < s.drop_last().len() && s.drop_last()[i].key@ == k;
                assert(s[i].key@ == k);
            }
            if exists|i: int| 0 <= i < s.len() && s[i].key@ == k {
                let i = choose|i: int| 0 <= i < s.len() && s[i].key@ == k;
                assert(i < s.len() - 1);
                assert(s.drop_last()[i].key@ == k);
            }
        }
    }
}

proof fn lemma_map_of_index(s: Seq<Entry>, i: int)
    requires
        keys_unique(s),
        0 <= i < s.len(),
    ensures
        map_of(s).contains_key(s[i].key@),
        map_of(s)[s[i].key@] == slot_of(s[i]),
    decreases s.len(),
{
    if i == s.len() - 1 {
    } else {
        assert(keys_unique(s.drop_last())) by {
            assert(forall|a: int, b: int|
                #![trigger s.drop_last()[a].key@, s.drop_last()[b].key@]
                0 <= a < b < s.drop_last().len() ==> s.drop_last()[a].key@ != s.drop_last()[b].key@);
        }
        lemma_map_of_index(s.drop_last(), i);
        assert(s.drop_last()[i] == s[i]);
        assert(s[i].key@ != s[s.len() - 1].key@);
    }
}

proof fn lemma_map_of_push(s: Seq<Entry>, e: Entry)
    ensures
        map_of(s.push(e)) == map_of(s).insert(e.key@, slot_of(e)),
{
    assert(s.push(e).drop_last() =~= s);
    assert(s.push(e).last() == e);
}

proof fn lemma_map_of_update(s: Seq<Entry>, i: int, e: Entry)
    requires
        keys_unique(s),
        0 <= i < s.len(),
        e.key@ == s[i].key@,
    ensures
        map_of(s.update(i, e)) == map_of(s).insert(e.key@, slot_of(e)),
    decreases s.len(),
{
    let t = s.update(i, e);
    if i == s.len() - 1 {
        assert(t.drop_last() =~= s.drop_last());
        assert(t.last() == e);
        assert(map_of(t) == map_of(s.drop_last()).insert(e.key@, slot_of(e)));
        assert(map_of(s.drop_last()).insert(s[i].key@, slot_of(s[i])).insert(e.key@, slot_of(e))
            =~= map_of(s.drop_last()).insert(e.key@, slot_of(e)));
    } else {
        assert(keys_unique(s.drop_last())) by {
            assert(forall|a: int, b: int|
                #![trigger s.drop_last()[a].key@, s.drop_last()[b].key@]
                0 <= a < b < s.drop_last().len() ==> s.drop_last()[a].key@ != s.drop_last()[b].key@);
        }
        assert(t.drop_last() =~= s.drop_last().update(i, e));
        lemma_map_of_update(s.drop_last(), i, e);
        assert(t.last() == s.last());
        assert(map_of(t) == map_of(s.drop_last()).insert(e.key@, slot_of(e)).insert(
            s.last().key@,
            slot_of(s.last()),
        ));
        assert(e.key@ != s.last().key@);
        assert(map_of(s.drop_last()).insert(e.key@, slot_of(e)).insert(
            s.last().key@,
            slot_of(s.last()),
        ) =~= map_of(s.drop_last()).insert(s.last().key@, slot_of(s.last())).insert(
            e.key@,
            slot_of(e),
        ));
    }
}

/// The accumulation store.
pub struct Store {
    entries: Vec<Entry>,
}

impl View for Store {
    type V = Map<Seq<char>, SlotM>;

    closed spec fn view(&self) -> Map<Seq<char>, SlotM> {
        map_of(self.entries@)
    }
}

impl Store {
    /// Keys are unique and every stored value is well-formed.
    pub closed spec fn wf(&self) -> bool {
        keys_unique(self.entries@) && entries_wf(self.entries@)
    }

    /// A fresh store, holding no key.
    pub fn new() -> (s: Store)
        ensures
            s.wf(),
            s@ == Map::<Seq<char>, SlotM>::empty(),
    {
        Store { entries: Vec::new() }
    }

    fn find(&self, key: &String) -> (r: Option<usize>)
        ensures
            match r {
                Some(i) => i < self.entries@.len() && self.entries@[i as int].key@ == key@,
                None => forall|j: int|
                    0 <= j < self.entries@.len() ==> self.entries@[j].key@ != key@,
            },
    {
        let n = self.entries.len();
        let mut i: usize = 0;
        while i < n
            invariant
                i <= n,
                n == self.entries@.len(),
                forall|j: int| 0 <= j < i ==> self.entries@[j].key@ != key@,
            decreases n - i,
        {
            if self.entries[i].key == *key {
                return Some(i);
            }
            i += 1;
        }
        None
    }

    /// Merge `value` into `key` by Int64 addition. The first write binds
    /// the key to Int64 and adds the value to the domain's identity 0; a
    /// sum that leaves the representable range is refused with the slot
    /// unchanged, as is a key bound to another domain.
    pub fn sum_int64(&mut self, ord: u64, key: String, value: i64) -> (r: Result<(), StoreError>)
        requires
            old(self).wf(),
        ensures
            final(self).wf(),
            ({
                let pre = old(self)@;
                let k = key@;
                match r {
                    Ok(()) => {
                        &&& tag_ok(pre, k, Tag::Int64)
                        &&& i64::MIN <= cur_i64(pre, k) + value <= i64::MAX
                        &&& final(self)@ == pre.insert(
                            k,
                            SlotM { val: ValM::I64(cur_i64(pre, k) + value), ord },
                        )
                    },
                    Err(e) => {
                        &&& final(self)@ == pre
                        &&& (e == StoreError::DomainMismatch <==> !tag_ok(pre, k, Tag::Int64))
                        &&& (e == StoreError::ArithmeticOverflow <==> tag_ok(pre, k, Tag::Int64)
                            && !(i64::MIN <= cur_i64(pre, k) + value <= i64::MAX))
                        &&& e != StoreError::ParseError
                    },
                }
            }),
    {
        let ghost s0 = self.entries@;
        match self.find(&key) {
            None => {
                proof {
                    lemma_map_of_contains(s0, key@);
                }
                let e = Entry { key, val: StoredVal::I64(value), ord };
                self.entries.push(e);
                proof {
                    lemma_map_of_push(s0, e);
                }
                Ok(())
            },
            Some(i) => {
                proof {
                    lemma_map_of_index(s0, i as int);
                }
                let cur_opt: Option<i64> = match &self.entries[i].val {
                    StoredVal::I64(x) => Some(*x),
                    _ => None,
                };
                match cur_opt {
                    None => Err(StoreError::DomainMismatch),
                    Some(cur) => {
                        match cur.checked_add(value) {
                            None => Err(StoreError::ArithmeticOverflow),
                            Some(sum) => {
                                let e = Entry { key, val: StoredVal::I64(sum), ord };
                                self.entries.set(i, e);
                                proof {
                                    lemma_map_of_update(s0, i as int, e);
                                }
                                Ok(())
                            },
                        }
                    },
                }
            },
        }
    }

    /// Merge `value` into `key` by Int64 minimum. The first write stores
    /// the value itself; a key bound to another domain is refused with the
    /// slot unchanged.
    pub fn set_min_int64(&mut self, ord: u64, key: String, value: i64) -> (r: Result<
        (),
        StoreError,
    >)
        requires
            old(self).wf(),
        ensures
            final(self).wf(),
            ({
                let pre = old(self)@;
                let k = key@;
                match r {
                    Ok(()) => {
                        &&& tag_ok(pre, k, Tag::Int64)
                        &&& final(self)@ == pre.insert(
                            k,
                            SlotM { val: ValM::I64(min_i64_result(pre, k, value as int)), ord },
                        )
                    },
                    Err(e) => {
                        &&& final(self)@ == pre
                        &&& e == StoreError::DomainMismatch
                        &&& !tag_ok(pre, k, Tag::Int64)
                    },
                }
            }),
    {
        let ghost s0 = self.entries@;
        match self.find(&key) {
            None => {
                proof {
                    lemma_map_of_contains(s0, key@);
                }
                let e = Entry { key, val: StoredVal::I64(value), ord };
                self.entries.push(e);
                proof {
                    lemma_map_of_push(s0, e);
                }
                Ok(())
            },
            Some(i) => {
                proof {
                    lemma_map_of_index(s0, i as int);
                }
                let cur_opt: Option<i64> = match &self.entries[i].val {
                    StoredVal::I64(x) => Some(*x),
                    _ => None,
                };
                match cur_opt {
                    None => Err(StoreError::DomainMismatch),
                    Some(cur) => {
                        let new_val = if cur <= value {
                            cur
                        } else {
                            value
                        };
                        let e = Entry { key, val: StoredVal::I64(new_val), ord };
                        self.entries.set(i, e);
                        proof {
                            lemma_map_of_update(s0, i as int, e);
                        }
                        Ok(())
                    },
                }
            },
        }
    }

    /// Merge `value` into `key` by exact BigInt addition. The first write
    /// binds the key to BigInt and adds the value to the domain's identity
    /// 0; a key bound to another domain is refused with the slot unchanged.
    pub fn sum_bigint(&mut self, ord: u64, key: String, value: BigIntVal) -> (r: Result<
        (),
        StoreError,
    >)
        requires
            old(self).wf(),
            value.wf(),
        ensures
            final(self).wf(),
            ({
                let pre = old(self)@;
                let k = key@;
                match r {
                    Ok(()) => {
                        &&& tag_ok(pre, k, Tag::BigInt)
                        &&& final(self)@ == pre.insert(
                            k,
                            SlotM { val: ValM::Big(cur_big(pre, k) + value.value()), ord },
                        )
                    },
                    Err(e) => {
                        &&& final(self)@ == pre
                        &&& e == StoreError::DomainMismatch
                        &&& !tag_ok(pre, k, Tag::BigInt)
                    },
                }
            }),
    {
        let ghost s0 = self.entries@;
        match self.find(&key) {
            None => {
                proof {
                    lemma_map_of_contains(s0, key@);
                }
                let e = Entry { key, val: StoredVal::Big(value), ord };
                self.entries.push(e);
                proof {
                    lemma_map_of_push(s0, e);
                }
                Ok(())
            },
            Some(i) => {
                proof {
                    lemma_map_of_index(s0, i as int);
                }
                let sum_digits: Option<String> = match &self.entries[i].val {
                    StoredVal::Big(b) => Some(
                        biguint_add(b.digits.as_str(), value.digits.as_str()),
                    ),
                    _ => None,
                };
                match sum_digits {
                    None => Err(StoreError::DomainMismatch),
                    Some(digits) => {
                        let e = Entry { key, val: StoredVal::Big(BigIntVal { digits }), ord };
                        self.entries.set(i, e);
                        proof {
                            lemma_map_of_update(s0, i as int, e);
                        }
                        Ok(())
                    },
                }
            },
        }
    }

    /// Merge `value` into `key` by BigInt minimum. The first write stores
    /// the value itself; a key bound to another domain is refused with the
    /// slot unchanged.
    pub fn set_min_bigint(&mut self, ord: u64, key: String, value: BigIntVal) -> (r: Result<
        (),
        StoreError,
    >)
        requires
            old(self).wf(),
            value.wf(),
        ensures
            final(self).wf(),
            ({
                let pre = old(self)@;
                let k = key@;
                match r {
                    Ok(()) => {
                        &&& tag_ok(pre, k, Tag::BigInt)
                        &&& final(self)@ == pre.insert(
                            k,
                            SlotM { val: ValM::Big(min_big_result(pre, k, value.value())), ord },
                        )
                    },
                    Err(e) => {
                        &&& final(self)@ == pre
                        &&& e == StoreError::DomainMismatch
                        &&& !tag_ok(pre, k, Tag::BigInt)
                    },
                }
            }),
    {
        let ghost s0 = self.entries@;
        match self.find(&key) {
            None => {
                proof {
                    lemma_map_of_contains(s0, key@);
                }
                let e = Entry { key, val: StoredVal::Big(value), ord };
                self.entries.push(e);
                proof {
                    lemma_map_of_push(s0, e);
                }
                Ok(())
            },
            Some(i) => {
                proof {
                    lemma_map_of_index(s0, i as int);
                }
                let min_digits: Option<String> = match &self.entries[i].val {
                    StoredVal::Big(b) => Some(
                        biguint_min(b.digits.as_str(), value.digits.as_str()),
                    ),
                    _ => None,
                };
                match min_digits {
                    None => Err(StoreError::DomainMismatch),
                    Some(digits) => {
                        let e = Entry { key, val: StoredVal::Big(BigIntVal { digits }), ord };
                        self.entries.set(i, e);
                        proof {
                            lemma_map_of_update(s0, i as int, e);
                        }
                        Ok(())
                    },
                }
            },
        }
    }

    /// Merge `value` into `key` by exact BigDecimal addition. The first
    /// write binds the key to BigDecimal and adds the value to the
    /// domain's identity 0 at scale 0; the sum is taken at the larger of
    /// the two scales. A key bound to another domain is refused with the
    /// slot unchanged.
    pub fn sum_bigfloat(&mut self, ord: u64, key: String, value: BigDecVal) -> (r: Result<
        (),
        StoreError,
    >)
        requires
            old(self).wf(),
            value.wf(),
        ensures
            final(self).wf(),
            ({
                let pre = old(self)@;
                let k = key@;
                match r {
                    Ok(()) => {
                        &&& tag_ok(pre, k, Tag::BigDecimal)
                        &&& final(self)@ == pre.insert(
                            k,
                            SlotM {
                                val: ValM::Dec(
                                    dec_add_m(
                                        cur_dec_m(pre, k),
                                        cur_dec_s(pre, k),
                                        value.num(),
                                        value.scale as int,
                                    ),
                                    dec_max_scale(cur_dec_s(pre, k), value.scale as int),
                                ),
                                ord,
                            },
                        )
                    },
                    Err(e) => {
                        &&& final(self)@ == pre
                        &&& e == StoreError::DomainMismatch
                        &&& !tag_ok(pre, k, Tag::BigDecimal)
                    },
                }
            }),
    {
        let ghost s0 = self.entries@;
        match self.find(&key) {
            None => {
                proof {
                    lemma_map_of_contains(s0, key@);
                    assert(pow10(0) == 1);
                    assert(dec_max_scale(0, value.scale as int) == value.scale as int);
                    assert(dec_align(0, 0, value.scale as int) == 0);
                    assert(dec_align(value.num(), value.scale as int, value.scale as int)
                        == value.num() * pow10(0));
                    assert(dec_add_m(0, 0, value.num(), value.scale as int) == value.num());
                }
                let e = Entry { key, val: StoredVal::Dec(value), ord };
                self.entries.push(e);
                proof {
                    lemma_map_of_push(s0, e);
                }
                Ok(())
            },
            Some(i) => {
                proof {
                    lemma_map_of_index(s0, i as int);
                }
                let sum_val: Option<BigDecVal> = match &self.entries[i].val {
                    StoredVal::Dec(d) => Some(bigdec_add(d, &value)),
                    _ => None,
                };
                match sum_val {
                    None => Err(StoreError::DomainMismatch),
                    Some(d) => {
                        let e = Entry { key, val: StoredVal::Dec(d), ord };
                        self.entries.set(i, e);
                        proof {
                            lemma_map_of_update(s0, i as int, e);
                        }
                        Ok(())
                    },
                }
            },
        }
    }

    /// Merge `value` into `key` by BigDecimal minimum, compared by numeric
    /// value regardless of scale. The first write stores the value itself;
    /// a key bound to another domain is refused with the slot unchanged.
    pub fn set_min_bigfloat(&mut self, ord: u64, key: String, value: BigDecVal) -> (r: Result<
        (),
        StoreError,
    >)
        requires
            old(self).wf(),
            value.wf(),
        ensures
            final(self).wf(),
            ({
                let pre = old(self)@;
                let k = key@;
                match r {
                    Ok(()) => {
                        &&& tag_ok(pre, k, Tag::BigDecimal)
                        &&& final(self)@ == pre.insert(
                            k,
                            SlotM {
                                val: ValM::Dec(
                                    min_dec_m(pre, k, value.num(), value.scale as int),
                                    min_dec_s(pre, k, value.num(), value.scale as int),
                                ),
                                ord,
                            },
                        )
                    },
                    Err(e) => {
                        &&& final(self)@ == pre
                        &&& e == StoreError::DomainMismatch
                        &&& !tag_ok(pre, k, Tag::BigDecimal)
                    },
                }
            }),
    {
        let ghost s0 = self.entries@;
        match self.find(&key) {
            None => {
                proof {
                    lemma_map_of_contains(s0, key@);
                }
                let e = Entry { key, val: StoredVal::Dec(value), ord };
                self.entries.push(e);
                proof {
                    lemma_map_of_push(s0, e);
                }
                Ok(())
            },
            Some(i) => {
                proof {
                    lemma_map_of_index(s0, i as int);
                }
                let min_val: Option<BigDecVal> = match &self.entries[i].val {
                    StoredVal::Dec(d) => Some(bigdec_min(d, &value)),
                    _ => None,
                };
                match min_val {
                    None => Err(StoreError::DomainMismatch),
                    Some(d) => {
                        let e = Entry { key, val: StoredVal::Dec(d), ord };
                        self.entries.set(i, e);
                        proof {
                            lemma_map_of_update(s0, i as int, e);
                        }
                        Ok(())
                    },
                }
            },
        }
    }

    /// Read the Float64 bit pattern under `key`: absent keys give `None`,
    /// a key bound to another domain is refused.
    pub fn get_float64_bits(&self, key: &String) -> (r: Result<Option<u64>, StoreError>)
        requires
            self.wf(),
        ensures
            match r {
                Ok(Some(b)) => self@.contains_key(key@) && self@[key@].val == ValM::F64Bits(b),
                Ok(None) => !self@.contains_key(key@),
                Err(e) => {
                    &&& e == StoreError::DomainMismatch
                    &&& !tag_ok(self@, key@, Tag::Float64)
                },
            },
    {
        match self.find(key) {
            None => {
                proof {
                    lemma_map_of_contains(self.entries@, key@);
                }
                Ok(None)
            },
            Some(i) => {
                proof {
                    lemma_map_of_index(self.entries@, i as int);
                }
                match &self.entries[i].val {
                    StoredVal::F64Bits(b) => Ok(Some(*b)),
                    _ => Err(StoreError::DomainMismatch),
                }
            },
        }
    }

    /// Commit a Float64 bit pattern under `key`. The first write binds the
    /// key to Float64; a key bound to another domain is refused with the
    /// slot unchanged. The caller computes the merged bits.
    pub fn set_float64_bits(&mut self, ord: u64, key: String, bits: u64) -> (r: Result<
        (),
        StoreError,
    >)
        requires
            old(self).wf(),
        ensures
            final(self).wf(),
            ({
                let pre = old(self)@;
                let k = key@;
                match r {
                    Ok(()) => {
                        &&& tag_ok(pre, k, Tag::Float64)
                        &&& final(self)@ == pre.insert(
                            k,
                            SlotM { val: ValM::F64Bits(bits), ord },
                        )
                    },
                    Err(e) => {
                        &&& final(self)@ == pre
                        &&& e == StoreError::DomainMismatch
                        &&& !tag_ok(pre, k, Tag::Float64)
                    },
                }
            }),
    {
        let ghost s0 = self.entries@;
        match self.find(&key) {
            None => {
                proof {
                    lemma_map_of_contains(s0, key@);
                }
                let e = Entry { key, val: StoredVal::F64Bits(bits), ord };
                self.entries.push(e);
                proof {
                    lemma_map_of_push(s0, e);
                }
                Ok(())
            },
            Some(i) => {
                proof {
                    lemma_map_of_index(s0, i as int);
                }
                let is_f64: bool = match &self.entries[i].val {
                    StoredVal::F64Bits(_) => true,
                    _ => false,
                };
                if is_f64 {
                    let e = Entry { key, val: StoredVal::F64Bits(bits), ord };
                    self.entries.set(i, e);
                    proof {
                        lemma_map_of_update(s0, i as int, e);
                    }
                    Ok(())
                } else {
                    Err(StoreError::DomainMismatch)
                }
            },
        }
    }

    /// Read the value under `key`: `None` for a key never written, so a
    /// caller can tell "never written" from "written with the identity".
    pub fn get(&self, key: &String) -> (r: Option<&StoredVal>)
        requires
            self.wf(),
        ensures
            match r {
                Some(v) => {
                    &&& self@.contains_key(key@)
                    &&& v.wf()
                    &&& v.model() == self@[key@].val
                },
                None => !self@.contains_key(key@),
            },
    {
        match self.find(key) {
            None => {
                proof {
                    lemma_map_of_contains(self.entries@, key@);
                }
                None
            },
            Some(i) => {
                proof {
                    lemma_map_of_index(self.entries@, i as int);
                }
                Some(&self.entries[i].val)
            },
        }
    }

    /// The ordinal of the last write under `key`, where one happened.
    pub fn last_ordinal(&self, key: &String) -> (r: Option<u64>)
        requires
            self.wf(),
        ensures
            match r {
                Some(o) => self@.contains_key(key@) && o == self@[key@].ord,
                None => !self@.contains_key(key@),
            },
    {
        match self.find(key) {
            None => {
                proof {
                    lemma_map_of_contains(self.entries@, key@);
                }
                None
            },
            Some(i) => {
                proof {
                    lemma_map_of_index(self.entries@, i as int);
                }
                Some(self.entries[i].ord)
            },
        }
    }
}

} // verus!
