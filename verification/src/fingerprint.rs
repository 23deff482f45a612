use vstd::prelude::*;

verus! {

/// Largest total occurrence count a fingerprint may tally. Keeping the total
/// under 2^16 lets every product this module forms fit in the machine words
/// used to compute and compare scores exactly.
pub const MAX_TOTAL_COUNT: usize = 65535;

/// A sparse term-frequency vector over identifiers ("semantic fingerprint").
///
/// An entry `(id, c)` records that identifier `id` occurred `c >= 1` times in
/// the sequence the fingerprint was built from, and `norm_sq` is the sum of
/// the squared counts. The L2-normalized weight of `id` is the real number
/// `c / sqrt(norm_sq)`; weights are kept as these exact rationals rather than
/// as inexact machine approximations, so similarity scores compare exactly.
pub struct Fingerprint {
    pub entries: Vec<(u64, u64)>,
    pub norm_sq: u64,
}

/// The count recorded for `id`: the value of the first entry keyed by `id`,
/// or zero when no entry is.
pub open spec fn lookup(s: Seq<(u64, u64)>, id: u64) -> nat
    decreases s.len(),
{
    if s.len() == 0 {
        0
    } else if s[0].0 == id {
        s[0].1 as nat
    } else {
        lookup(s.drop_first(), id)
    }
}

/// Whether some entry is keyed by `id`.
pub open spec fn has_key(s: Seq<(u64, u64)>, id: u64) -> bool {
    exists|i: int| 0 <= i < s.len() && s[i].0 == id
}

/// Sum of all counts.
pub open spec fn sum_counts(s: Seq<(u64, u64)>) -> nat
    decreases s.len(),
{
    if s.len() == 0 {
        0
    } else {
        s[0].1 as nat + sum_counts(s.drop_first())
    }
}

/// Sum of all squared counts: the squared L2 norm of the count vector.
pub open spec fn sum_sq(s: Seq<(u64, u64)>) -> nat
    decreases s.len(),
{
    if s.len() == 0 {
        0
    } else {
        (s[0].1 * s[0].1) as nat + sum_sq(s.drop_first())
    }
}

/// Numerator of the inner product of two count vectors: the sum, over the
/// keys of `a`, of the product of the counts both sides record for that key
/// (an absent key counts as zero, so summing over `a`'s keys covers the
/// union of keys).
pub open spec fn dot_num(a: Seq<(u64, u64)>, b: Seq<(u64, u64)>) -> nat
    decreases a.len(),
{
    if a.len() == 0 {
        0
    } else {
        (a[0].1 as nat * lookup(b, a[0].0)) as nat + dot_num(a.drop_first(), b)
    }
}

/// How many times `x` occurs in `s`.
pub open spec fn count_in(s: Seq<u64>, x: u64) -> nat
    decreases s.len(),
{
    if s.len() == 0 {
        0
    } else {
        (if s[0] == x {
            1nat
        } else {
            0
        }) + count_in(s.drop_first(), x)
    }
}

/// Pairwise-distinct keys.
pub open spec fn keys_distinct(s: Seq<(u64, u64)>) -> bool {
    forall|i: int, j: int| 0 <= i < j < s.len() ==> s[i].0 != s[j].0
}

/// Every count is at least one.
pub open spec fn counts_positive(s: Seq<(u64, u64)>) -> bool {
    forall|i: int| 0 <= i < s.len() ==> (#[trigger] s[i]).1 >= 1
}

impl Fingerprint {
    /// Well-formedness: one entry per key, positive counts, `norm_sq` really
    /// is the squared norm, and the total count is small enough that all
    /// downstream arithmetic fits its machine words.
    pub open spec fn wf(self) -> bool {
        &&& keys_distinct(self.entries@)
        &&& counts_positive(self.entries@)
        &&& self.norm_sq == sum_sq(self.entries@)
        &&& sum_counts(self.entries@) <= MAX_TOTAL_COUNT
    }

    /// The count this fingerprint records for `id`.
    pub open spec fn count_of(self, id: u64) -> nat {
        lookup(self.entries@, id)
    }
}

/// An exact similarity score: the real number `num / sqrt(den)`.
///
/// A score produced by `dot_product` of fingerprints built from sequences of
/// total count at most `MAX_TOTAL_COUNT` satisfies `wf`, which is what the
/// exact comparison `score_ge` needs to avoid overflow.
pub struct Score {
    pub num: u64,
    pub den: u64,
}

impl Score {
    pub open spec fn wf(self) -> bool {
        &&& 1 <= self.den
        &&& self.num < 0x1_0000_0000
    }

    /// The score is exactly 1, i.e. `num / sqrt(den) == 1`.
    pub open spec fn is_one(self) -> bool {
        self.num * self.num == self.den
    }
}

/// `a >= b` as real numbers: `a.num / sqrt(a.den) >= b.num / sqrt(b.den)`,
/// which for non-negative numerators and positive denominators is equivalent
/// to this cross-multiplied square-free form.
pub open spec fn score_ge(a: Score, b: Score) -> bool {
    a.num * a.num * b.den >= b.num * b.num * a.den
}

/// The score order is total on well-formed scores.
pub proof fn lemma_score_ge_total(a: Score, b: Score)
    ensures
        score_ge(a, b) || score_ge(b, a),
{
}

/// The score order is transitive on well-formed scores.
pub proof fn lemma_score_ge_trans(a: Score, b: Score, c: Score)
    requires
        a.wf(),
        b.wf(),
        c.wf(),
        score_ge(a, b),
        score_ge(b, c),
    ensures
        score_ge(a, c),
{
    let an = a.num as int;
    let bn = b.num as int;
    let cn = c.num as int;
    let ad = a.den as int;
    let bd = b.den as int;
    let cd = c.den as int;
    if bn == 0 {
        assert(cn * cn == 0) by (nonlinear_arith)
            requires
                bn * bn * cd >= cn * cn * bd,
                bn == 0,
                cn >= 0,
                bd >= 1,
        ;
        assert(cn * cn * ad == 0) by (nonlinear_arith)
            requires
                cn * cn == 0,
        ;
        assert(an * an * cd >= 0) by (nonlinear_arith)
            requires
                an >= 0,
                cd >= 0,
        ;
    } else {
        let k = bn * bn * bd;
        assert(k >= 1) by (nonlinear_arith)
            requires
                bn >= 1,
                bd >= 1,
                k == bn * bn * bd,
        ;
        assert((an * an * cd) * k >= (cn * cn * ad) * k) by (nonlinear_arith)
            requires
                an * an * bd >= bn * bn * ad,
                bn * bn * cd >= cn * cn * bd,
                an >= 0,
                bn >= 0,
                cn >= 0,
                ad >= 1,
                bd >= 1,
                cd >= 1,
                k == bn * bn * bd,
        ;
        assert(an * an * cd >= cn * cn * ad) by (nonlinear_arith)
            requires
                (an * an * cd) * k >= (cn * cn * ad) * k,
                k >= 1,
        ;
    }
}

/// Exact comparison of two scores as real numbers, non-increasing order.
pub fn score_is_ge(a: &Score, b: &Score) -> (r: bool)
    requires
        a.wf(),
        b.wf(),
    ensures
        r == score_ge(*a, *b),
{
    proof {
        assert((a.num as int) * (a.num as int) < 0x1_0000_0000_0000_0000) by (nonlinear_arith)
            requires
                a.num < 0x1_0000_0000,
        ;
        assert((b.num as int) * (b.num as int) < 0x1_0000_0000_0000_0000) by (nonlinear_arith)
            requires
                b.num < 0x1_0000_0000,
        ;
        assert((a.num as int) * (a.num as int) * (b.den as int) < 0x1_0000_0000_0000_0000
            * 0x1_0000_0000_0000_0000) by (nonlinear_arith)
            requires
                (a.num as int) * (a.num as int) < 0x1_0000_0000_0000_0000,
                b.den < 0x1_0000_0000_0000_0000,
        ;
        assert((b.num as int) * (b.num as int) * (a.den as int) < 0x1_0000_0000_0000_0000
            * 0x1_0000_0000_0000_0000) by (nonlinear_arith)
            requires
                (b.num as int) * (b.num as int) < 0x1_0000_0000_0000_0000,
                a.den < 0x1_0000_0000_0000_0000,
        ;
    }
    let lhs: u128 = (a.num as u128) * (a.num as u128) * (b.den as u128);
    let rhs: u128 = (b.num as u128) * (b.num as u128) * (a.den as u128);
    lhs >= rhs
}

proof fn lemma_skip_drop<A>(s: Seq<A>, i: int)
    requires
        0 <= i < s.len(),
    ensures
        s.skip(i).drop_first() == s.skip(i + 1),
        s.skip(i)[0] == s[i],
        s.skip(i).len() == s.len() - i,
{
    assert(s.skip(i).drop_first() =~= s.skip(i + 1));
}

proof fn lemma_lookup_le_sum(s: Seq<(u64, u64)>, id: u64)
    ensures
        lookup(s, id) <= sum_counts(s),
    decreases s.len(),
{
    if s.len() > 0 {
        lemma_lookup_le_sum(s.drop_first(), id);
    }
}

proof fn lemma_entry_le_sum(s: Seq<(u64, u64)>, j: int)
    requires
        0 <= j < s.len(),
    ensures
        s[j].1 <= sum_counts(s),
    decreases j,
{
    if j > 0 {
        lemma_entry_le_sum(s.drop_first(), j - 1);
        assert(s.drop_first()[j - 1] == s[j]);
    }
}

proof fn lemma_lookup_absent(s: Seq<(u64, u64)>, id: u64)
    requires
        !has_key(s, id),
    ensures
        lookup(s, id) == 0,
    decreases s.len(),
{
    if s.len() > 0 {
        assert(s[0].0 != id);
        assert(!has_key(s.drop_first(), id)) by {
            if has_key(s.drop_first(), id) {
                let i = choose|i: int| 0 <= i < s.drop_first().len() && s.drop_first()[i].0 == id;
                assert(s[i + 1].0 == id);
            }
        }
        lemma_lookup_absent(s.drop_first(), id);
    }
}

proof fn lemma_has_key_drop(s: Seq<(u64, u64)>, id: u64)
    requires
        s.len() > 0,
        s[0].0 != id,
    ensures
        has_key(s, id) == has_key(s.drop_first(), id),
{
    if has_key(s, id) {
        let i = choose|i: int| 0 <= i < s.len() && s[i].0 == id;
        assert(s.drop_first()[i - 1].0 == id);
    }
    if has_key(s.drop_first(), id) {
        let i = choose|i: int| 0 <= i < s.drop_first().len() && s.drop_first()[i].0 == id;
        assert(s[i + 1].0 == id);
    }
}

proof fn lemma_lookup_push(s: Seq<(u64, u64)>, k: u64, c: u64, id: u64)
    ensures
        lookup(s.push((k, c)), id) == if has_key(s, id) {
            lookup(s, id)
        } else if id == k {
            c as nat
        } else {
            0nat
        },
    decreases s.len(),
{
    let t = s.push((k, c));
    if s.len() == 0 {
        assert(t.drop_first() =~= s);
        assert(t[0] == (k, c));
        assert(!has_key(s, id));
        if k == id {
            assert(lookup(t, id) == c as nat);
        } else {
            assert(lookup(t, id) == lookup(s, id));
            assert(lookup(s, id) == 0);
        }
    } else {
        assert(t.drop_first() =~= s.drop_first().push((k, c)));
        assert(t[0] == s[0]);
        lemma_lookup_push(s.drop_first(), k, c, id);
        if s[0].0 == id {
            assert(has_key(s, id)) by {
                assert(s[0].0 == id);
            }
            assert(lookup(t, id) == s[0].1 as nat);
            assert(lookup(s, id) == s[0].1 as nat);
        } else {
            lemma_has_key_drop(s, id);
            assert(lookup(t, id) == lookup(t.drop_first(), id));
            assert(lookup(s, id) == lookup(s.drop_first(), id));
        }
    }
}

/// With distinct keys, the count looked up at entry `j`'s key is its count.
proof fn lemma_lookup_at(s: Seq<(u64, u64)>, j: int)
    requires
        0 <= j < s.len(),
        keys_distinct(s),
    ensures
        lookup(s, s[j].0) == s[j].1 as nat,
    decreases j,
{
    if j > 0 {
        assert(s[0].0 != s[j].0);
        assert(keys_distinct(s.drop_first())) by {
            assert(forall|i: int|
                0 <= i < s.drop_first().len() ==> s.drop_first()[i] == s[i + 1]);
        }
        assert(s.drop_first()[j - 1] == s[j]);
        lemma_lookup_at(s.drop_first(), j - 1);
    }
}

proof fn lemma_sum_counts_push(s: Seq<(u64, u64)>, e: (u64, u64))
    ensures
        sum_counts(s.push(e)) == sum_counts(s) + e.1,
    decreases s.len(),
{
    if s.len() == 0 {
        assert(s.push(e).drop_first() =~= s);
    } else {
        assert(s.push(e).drop_first() =~= s.drop_first().push(e));
        assert(s.push(e)[0] == s[0]);
        lemma_sum_counts_push(s.drop_first(), e);
    }
}

proof fn lemma_lookup_update(s: Seq<(u64, u64)>, j: int, c2: u64, id: u64)
    requires
        0 <= j < s.len(),
        keys_distinct(s),
    ensures
        lookup(s.update(j, (s[j].0, c2)), id) == if id == s[j].0 {
            c2 as nat
        } else {
            lookup(s, id)
        },
    decreases j,
{
    let t = s.update(j, (s[j].0, c2));
    if j == 0 {
        assert(t[0] == (s[0].0, c2));
        assert(t.drop_first() =~= s.drop_first());
    } else {
        assert(t[0] == s[0]);
        assert(t.drop_first() =~= s.drop_first().update(j - 1, (s[j].0, c2)));
        assert(s.drop_first()[j - 1] == s[j]);
        assert(keys_distinct(s.drop_first())) by {
            assert(forall|i: int|
                0 <= i < s.drop_first().len() ==> s.drop_first()[i] == s[i + 1]);
        }
        lemma_lookup_update(s.drop_first(), j - 1, c2, id);
        assert(s[0].0 != s[j].0);
    }
}

proof fn lemma_sum_counts_update(s: Seq<(u64, u64)>, j: int, c2: u64)
    requires
        0 <= j < s.len(),
    ensures
        sum_counts(s.update(j, (s[j].0, c2))) + s[j].1 == sum_counts(s) + c2,
    decreases j,
{
    let t = s.update(j, (s[j].0, c2));
    if j == 0 {
        assert(t[0] == (s[0].0, c2));
        assert(t.drop_first() =~= s.drop_first());
    } else {
        assert(t[0] == s[0]);
        assert(t.drop_first() =~= s.drop_first().update(j - 1, (s[j].0, c2)));
        assert(s.drop_first()[j - 1] == s[j]);
        lemma_sum_counts_update(s.drop_first(), j - 1, c2);
    }
}

proof fn lemma_sum_sq_update(s: Seq<(u64, u64)>, j: int, c2: u64)
    requires
        0 <= j < s.len(),
    ensures
        sum_sq(s.update(j, (s[j].0, c2))) + s[j].1 * s[j].1 == sum_sq(s) + c2 * c2,
    decreases j,
{
    let t = s.update(j, (s[j].0, c2));
    if j == 0 {
        assert(t[0] == (s[0].0, c2));
        assert(t.drop_first() =~= s.drop_first());
    } else {
        assert(t[0] == s[0]);
        assert(t.drop_first() =~= s.drop_first().update(j - 1, (s[j].0, c2)));
        assert(s.drop_first()[j - 1] == s[j]);
        lemma_sum_sq_update(s.drop_first(), j - 1, c2);
    }
}

proof fn lemma_sum_counts_zero(s: Seq<(u64, u64)>)
    requires
        counts_positive(s),
    ensures
        (sum_counts(s) == 0) == (s.len() == 0),
{
    if s.len() > 0 {
        assert(s[0].1 >= 1);
    }
}

proof fn lemma_sum_sq_zero(s: Seq<(u64, u64)>)
    requires
        counts_positive(s),
    ensures
        (sum_sq(s) == 0) == (s.len() == 0),
{
    if s.len() > 0 {
        let c = s[0].1 as int;
        assert(c * c >= 1) by (nonlinear_arith)
            requires
                c >= 1,
        ;
    }
}

/// The squared norm is at most the square of the total count.
proof fn lemma_sum_sq_le(s: Seq<(u64, u64)>)
    ensures
        sum_sq(s) <= sum_counts(s) * sum_counts(s),
    decreases s.len(),
{
    if s.len() > 0 {
        lemma_sum_sq_le(s.drop_first());
        let c = s[0].1 as int;
        let r = sum_counts(s.drop_first()) as int;
        assert(c * c + r * r <= (c + r) * (c + r)) by (nonlinear_arith)
            requires
                c >= 0,
                r >= 0,
        ;
    }
}

/// The inner-product numerator is bounded by the product of the totals.
proof fn lemma_dot_le(a: Seq<(u64, u64)>, b: Seq<(u64, u64)>, m: nat)
    requires
        sum_counts(b) <= m,
    ensures
        dot_num(a, b) <= sum_counts(a) * m,
    decreases a.len(),
{
    if a.len() > 0 {
        lemma_lookup_le_sum(b, a[0].0);
        lemma_dot_le(a.drop_first(), b, m);
        let c = a[0].1 as int;
        let l = lookup(b, a[0].0) as int;
        let r = sum_counts(a.drop_first()) as int;
        let mi = m as int;
        assert(c * l + r * mi <= (c + r) * mi) by (nonlinear_arith)
            requires
                c >= 0,
                r >= 0,
                l <= mi,
                r * mi <= r * mi,
        ;
        assert(dot_num(a.drop_first(), b) <= r * mi);
    }
}

/// Dropping the first entry of `b` leaves the inner product unchanged when
/// no key of `a` matches it.
proof fn lemma_dot_drop_b(a: Seq<(u64, u64)>, b: Seq<(u64, u64)>)
    requires
        b.len() > 0,
        forall|i: int| 0 <= i < a.len() ==> (#[trigger] a[i]).0 != b[0].0,
    ensures
        dot_num(a, b) == dot_num(a, b.drop_first()),
    decreases a.len(),
{
    if a.len() > 0 {
        assert(lookup(b, a[0].0) == lookup(b.drop_first(), a[0].0));
        lemma_dot_drop_b(a.drop_first(), b);
    }
}

/// The inner product of a count vector with itself is its squared norm.
pub proof fn lemma_self_dot(s: Seq<(u64, u64)>)
    requires
        keys_distinct(s),
    ensures
        dot_num(s, s) == sum_sq(s),
    decreases s.len(),
{
    if s.len() > 0 {
        let rest = s.drop_first();
        assert(lookup(s, s[0].0) == s[0].1 as nat);
        assert(forall|i: int| 0 <= i < rest.len() ==> (#[trigger] rest[i]).0 != s[0].0) by {
            assert(forall|i: int| 0 <= i < rest.len() ==> rest[i] == s[i + 1]);
        }
        lemma_dot_drop_b(rest, s);
        assert(keys_distinct(rest)) by {
            assert(forall|i: int| 0 <= i < rest.len() ==> rest[i] == s[i + 1]);
        }
        lemma_self_dot(rest);
    }
}

/// Index of the entry keyed by `id`, when there is one.
fn find_key(entries: &Vec<(u64, u64)>, id: u64) -> (r: Option<usize>)
    ensures
        match r {
            Some(j) => j < entries@.len() && entries@[j as int].0 == id,
            None => !has_key(entries@, id),
        },
{
    let mut i: usize = 0;
    while i < entries.len()
        invariant
            i <= entries@.len(),
            forall|j: int| 0 <= j < i ==> (#[trigger] entries@[j]).0 != id,
        decreases entries@.len() - i,
    {
        if entries[i].0 == id {
            return Some(i);
        }
        i += 1;
    }
    None
}

/// The count an entry list records for `id`, zero when absent.
fn get_count(entries: &Vec<(u64, u64)>, id: u64) -> (r: u64)
    ensures
        r as nat == lookup(entries@, id),
{
    let mut i: usize = 0;
    proof {
        assert(entries@.skip(0) =~= entries@);
    }
    while i < entries.len()
        invariant
            i <= entries@.len(),
            lookup(entries@, id) == lookup(entries@.skip(i as int), id),
        decreases entries@.len() - i,
    {
        proof {
            lemma_skip_drop(entries@, i as int);
        }
        if entries[i].0 == id {
            return entries[i].1;
        }
        i += 1;
    }
    0
}

/// Builds the semantic fingerprint of a sequence of identifiers: tallies how
/// often each identifier occurs and records the squared L2 norm of the tally,
/// so that the weight of `id` reads as `count / sqrt(norm_sq)`. An empty
/// input yields the empty fingerprint (the zero vector).
pub fn build_vector(identifiers: &Vec<u64>) -> (r: Fingerprint)
    requires
        identifiers@.len() <= MAX_TOTAL_COUNT,
    ensures
        r.wf(),
        forall|id: u64| #[trigger] r.count_of(id) == count_in(identifiers@, id),
        sum_counts(r.entries@) == identifiers@.len(),
        (r.entries@.len() == 0) == (identifiers@.len() == 0),
        (r.norm_sq == 0) == (identifiers@.len() == 0),
{
    let ghost ids = identifiers@;
    let mut entries: Vec<(u64, u64)> = Vec::new();
    let mut i: usize = 0;
    proof {
        assert(ids.skip(0) =~= ids);
    }
    while i < identifiers.len()
        invariant
            i <= ids.len(),
            ids == identifiers@,
            ids.len() <= MAX_TOTAL_COUNT,
            keys_distinct(entries@),
            counts_positive(entries@),
            sum_counts(entries@) == i as nat,
            forall|id: u64|
                #[trigger] lookup(entries@, id) + count_in(ids.skip(i as int), id) == count_in(
                    ids,
                    id,
                ),
        decreases ids.len() - i,
    {
        let id = identifiers[i];
        let ghost before = entries@;
        proof {
            assert(forall|x: u64|
                count_in(ids.skip(i as int), x) == (if ids[i as int] == x {
                    1nat
                } else {
                    0nat
                }) + count_in(ids.skip(i as int + 1), x)) by {
                assert(ids.skip(i as int).drop_first() =~= ids.skip(i as int + 1));
                assert(ids.skip(i as int)[0] == ids[i as int]);
            }
        }
        match find_key(&entries, id) {
            Some(j) => {
                let c = entries[j].1;
                proof {
                    lemma_entry_le_sum(entries@, j as int);
                    lemma_lookup_at(entries@, j as int);
                }
                entries[j] = (id, c + 1);
                proof {
                    assert(entries@ == before.update(j as int, (id, (c + 1) as u64)));
                    assert((id, (c + 1) as u64) == (before[j as int].0, (c + 1) as u64));
                    assert forall|x: u64|
                        #[trigger] lookup(entries@, x) + count_in(ids.skip(i as int + 1), x)
                            == count_in(ids, x) by {
                        lemma_lookup_update(before, j as int, (c + 1) as u64, x);
                    }
                    lemma_sum_counts_update(before, j as int, (c + 1) as u64);
                    assert(keys_distinct(entries@));
                    assert(counts_positive(entries@));
                }
            },
            None => {
                entries.push((id, 1));
                proof {
                    assert(entries@ == before.push((id, 1u64)));
                    assert forall|x: u64|
                        #[trigger] lookup(entries@, x) + count_in(ids.skip(i as int + 1), x)
                            == count_in(ids, x) by {
                        lemma_lookup_push(before, id, 1u64, x);
                        if x != id && has_key(before, x) {
                        } else if x != id {
                            lemma_lookup_absent(before, x);
                        } else {
                            lemma_lookup_absent(before, id);
                        }
                    }
                    lemma_sum_counts_push(before, (id, 1u64));
                    assert(keys_distinct(entries@)) by {
                        assert(forall|k: int|
                            0 <= k < before.len() ==> (#[trigger] before[k]).0 != id);
                    }
                    assert(counts_positive(entries@));
                }
            },
        }
        i += 1;
    }
    proof {
        assert(ids.skip(i as int) =~= Seq::<u64>::empty());
        assert(forall|id: u64| count_in(ids.skip(i as int), id) == 0);
    }
    let ghost done = entries@;
    let mut norm_sq: u64 = 0;
    let mut j: usize = 0;
    proof {
        lemma_sum_sq_le(done);
        let sc = sum_counts(done) as int;
        assert(sc * sc <= 65535 * 65535) by (nonlinear_arith)
            requires
                0 <= sc <= 65535,
        ;
        assert(done.skip(0) =~= done);
    }
    while j < entries.len()
        invariant
            j <= done.len(),
            entries@ == done,
            norm_sq as nat + sum_sq(done.skip(j as int)) == sum_sq(done),
            sum_sq(done) <= 0xFFFE0001,
        decreases done.len() - j,
    {
        let c = entries[j].1;
        proof {
            lemma_skip_drop(done, j as int);
        }
        norm_sq = norm_sq + c * c;
        j += 1;
    }
    proof {
        assert(done.skip(j as int) =~= Seq::<(u64, u64)>::empty());
        lemma_sum_counts_zero(done);
        lemma_sum_sq_zero(done);
    }
    Fingerprint { entries, norm_sq }
}

/// The similarity of two fingerprints: the inner product of their weight
/// vectors, as the exact score `num / sqrt(den)`. For fingerprints built
/// from non-empty sequences `num` is the inner product of the count vectors
/// and `den` the product of the squared norms; when either side is the zero
/// vector the score is exactly zero.
pub fn dot_product(a: &Fingerprint, b: &Fingerprint) -> (r: Score)
    requires
        a.wf(),
        b.wf(),
    ensures
        r.wf(),
        r.num as nat == dot_num(a.entries@, b.entries@),
        a.norm_sq > 0 && b.norm_sq > 0 ==> r.den == a.norm_sq * b.norm_sq,
        a.norm_sq == 0 || b.norm_sq == 0 ==> r.den == 1 && r.num == 0,
{
    let ghost ea = a.entries@;
    let ghost eb = b.entries@;
    let mut num: u64 = 0;
    let mut i: usize = 0;
    proof {
        assert(ea.skip(0) =~= ea);
        lemma_dot_le(ea, eb, MAX_TOTAL_COUNT as nat);
        let sa = sum_counts(ea) as int;
        assert(sa * 65535 <= 65535 * 65535) by (nonlinear_arith)
            requires
                0 <= sa <= 65535,
        ;
    }
    while i < a.entries.len()
        invariant
            i <= ea.len(),
            a.entries@ == ea,
            b.entries@ == eb,
            num as nat + dot_num(ea.skip(i as int), eb) == dot_num(ea, eb),
            dot_num(ea, eb) <= 0xFFFE0001,
            sum_counts(ea) <= MAX_TOTAL_COUNT,
            sum_counts(eb) <= MAX_TOTAL_COUNT,
        decreases ea.len() - i,
    {
        let e = a.entries[i];
        let cb = get_count(&b.entries, e.0);
        proof {
            lemma_skip_drop(ea, i as int);
            assert(dot_num(ea.skip(i as int), eb) == (ea[i as int].1 as nat * lookup(
                eb,
                ea[i as int].0,
            )) as nat + dot_num(ea.skip(i as int + 1), eb));
        }
        num = num + e.1 * cb;
        i += 1;
    }
    proof {
        assert(ea.skip(i as int) =~= Seq::<(u64, u64)>::empty());
        lemma_sum_sq_le(ea);
        lemma_sum_sq_le(eb);
        let sa = sum_counts(ea) as int;
        let sb = sum_counts(eb) as int;
        assert(sa * sa <= 65535 * 65535) by (nonlinear_arith)
            requires
                0 <= sa <= 65535,
        ;
        assert(sb * sb <= 65535 * 65535) by (nonlinear_arith)
            requires
                0 <= sb <= 65535,
        ;
        let na = a.norm_sq as int;
        let nb = b.norm_sq as int;
        assert(na * nb <= 4294836225 * 4294836225) by (nonlinear_arith)
            requires
                0 <= na <= 4294836225,
                0 <= nb <= 4294836225,
        ;
        assert(na >= 1 && nb >= 1 ==> na * nb >= 1) by (nonlinear_arith);
        lemma_sum_sq_zero(ea);
        lemma_sum_sq_zero(eb);
    }
    if a.norm_sq == 0 || b.norm_sq == 0 {
        proof {
            if a.norm_sq == 0 {
                assert(ea.len() == 0);
                assert(dot_num(ea, eb) == 0);
            } else {
                assert(eb.len() == 0);
                assert forall|id: u64| #[trigger] lookup(eb, id) == 0 by {}
                assert(dot_num(ea, eb) == 0) by {
                    lemma_dot_le(ea, eb, 0);
                }
            }
        }
        Score { num: 0, den: 1 }
    } else {
        Score { num, den: a.norm_sq * b.norm_sq }
    }
}

/// LAW: for any fingerprint built from a non-empty identifier sequence, the
/// squared weights sum to exactly one: each weight is `count / sqrt(norm_sq)`,
/// so the sum of their squares is `sum_sq / norm_sq`, and `sum_sq == norm_sq`
/// with `norm_sq >= 1`. For an empty sequence the fingerprint is empty.
pub proof fn lemma_weights_unit_norm(f: Fingerprint)
    requires
        f.wf(),
        f.entries@.len() > 0,
    ensures
        sum_sq(f.entries@) == f.norm_sq,
        f.norm_sq >= 1,
{
    lemma_sum_sq_zero(f.entries@);
}

/// LAW: the similarity of a non-zero fingerprint with itself is exactly one.
/// `dot_product(f, f)` returns the score `num / sqrt(num * num)` with
/// `num == norm_sq`, since the inner product of the count vector with itself
/// is the squared norm; such a score satisfies `Score::is_one`.
pub proof fn lemma_self_similarity(f: Fingerprint)
    requires
        f.wf(),
        f.norm_sq > 0,
    ensures
        dot_num(f.entries@, f.entries@) == f.norm_sq,
        forall|s: Score|
            s.num == f.norm_sq && s.den == f.norm_sq * f.norm_sq ==> #[trigger] s.is_one(),
{
    lemma_self_dot(f.entries@);
}

} // verus!
