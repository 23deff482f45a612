use vstd::prelude::*;
use vstd::multiset::Multiset;

use itertools::Itertools;
use sha2::Digest;

use crate::fingerprint::{
    build_vector, count_in, dot_num, dot_product, lookup, score_ge, score_is_ge, sum_counts,
    Score, MAX_TOTAL_COUNT,
};
use crate::tokenizer::{fresh_words, lower_of, words_of, PrimeTokenizer};

verus! {

/// Largest number of unique identifiers a query may yield: the candidate
/// list is exponential in this count, so the generator refuses larger
/// vocabularies rather than exhaust memory.
pub const MAX_QUERY_TOKENS: usize = 8;

/// A scored password guess: a payload (a decimal rendering of a permutation
/// of identifiers, or its digest) with its similarity to the query.
pub struct Candidate {
    pub score: Score,
    pub payload: Vec<u8>,
}

/// The decimal digits of `n`, most significant first, as ASCII bytes.
pub open spec fn dec_of(n: nat) -> Seq<u8>
    decreases n,
{
    if n < 10 {
        seq![(48 + n) as u8]
    } else {
        dec_of(n / 10).push((48 + n % 10) as u8)
    }
}

/// The decimal renderings of a sequence of identifiers, concatenated with
/// no separators.
pub open spec fn payload_of(p: Seq<u64>) -> Seq<u8>
    decreases p.len(),
{
    if p.len() == 0 {
        Seq::empty()
    } else {
        payload_of(p.drop_last()) + dec_of(p.last() as nat)
    }
}

/// The SHA-256 digest of `data`.
pub uninterp spec fn sha256_of(data: Seq<u8>) -> Seq<u8>;

/// Relies on sha2::Sha256::digest: the 32-byte digest is a function of the
/// input bytes alone.
#[verifier::external_body]
fn sha256_digest(data: &Vec<u8>) -> (r: Vec<u8>)
    ensures
        r@ == sha256_of(data@),
        r@.len() == 32,
{
    sha2::Sha256::digest(data.as_slice()).to_vec()
}

/// Appends the decimal rendering of `n`.
fn push_decimal(out: &mut Vec<u8>, n: u64)
    ensures
        final(out)@ == old(out)@ + dec_of(n as nat),
    decreases n,
{
    if n < 10 {
        out.push(48 + n as u8);
        proof {
            assert(final(out)@ =~= old(out)@ + dec_of(n as nat));
        }
    } else {
        push_decimal(out, n / 10);
        out.push(48 + (n % 10) as u8);
        proof {
            assert(final(out)@ =~= old(out)@ + dec_of(n as nat));
        }
    }
}

/// The decimal renderings of the identifiers, concatenated in order.
fn render_payload(p: &Vec<u64>) -> (r: Vec<u8>)
    ensures
        r@ == payload_of(p@),
{
    let mut out: Vec<u8> = Vec::new();
    let mut i: usize = 0;
    proof {
        assert(p@.take(0) =~= Seq::<u64>::empty());
        assert(out@ =~= payload_of(p@.take(0)));
    }
    while i < p.len()
        invariant
            i <= p@.len(),
            out@ == payload_of(p@.take(i as int)),
        decreases p@.len() - i,
    {
        push_decimal(&mut out, p[i]);
        proof {
            assert(p@.take(i as int + 1).drop_last() =~= p@.take(i as int));
            assert(p@.take(i as int + 1).last() == p@[i as int]);
        }
        i += 1;
    }
    proof {
        assert(p@.take(i as int) =~= p@);
    }
    out
}

/// `p` holds pairwise-distinct elements drawn from `items`.
pub open spec fn is_perm_of(p: Seq<u64>, items: Seq<u64>) -> bool {
    &&& p.no_duplicates()
    &&& forall|j: int| 0 <= j < p.len() ==> items.contains(#[trigger] p[j])
}

/// Number of `k`-permutations of `n` distinct items: `n!/(n-k)!`.
pub open spec fn perm_count(n: nat, k: nat) -> nat
    decreases k,
{
    if k == 0 {
        1
    } else if n == 0 {
        0
    } else {
        (n * perm_count((n - 1) as nat, (k - 1) as nat)) as nat
    }
}

/// Sum of `perm_count(u, j)` for `j` from `k` to `u`.
pub open spec fn perm_sum(u: nat, k: nat) -> nat
    decreases u + 1 - k,
{
    if k > u {
        0
    } else {
        perm_count(u, k) + perm_sum(u, (k + 1) as nat)
    }
}

/// Relies on itertools::Itertools::permutations: for an iterator over `n`
/// distinct items it yields every `k`-permutation exactly once, `n!/(n-k)!`
/// vectors of `k` items each in permuted order. The bound on `n` keeps the
/// collected list within memory.
#[verifier::external_body]
fn k_permutations(items: &Vec<u64>, k: usize) -> (r: Vec<Vec<u64>>)
    requires
        1 <= k <= items@.len(),
        items@.no_duplicates(),
        items@.len() <= 12,
    ensures
        r@.len() == perm_count(items@.len() as nat, k as nat),
        forall|i: int|
            0 <= i < r@.len() ==> (#[trigger] r@[i]@).len() == k && is_perm_of(r@[i]@, items@),
        forall|p: Seq<u64>|
            is_perm_of(p, items@) && p.len() == k ==> exists|i: int|
                0 <= i < r@.len() && r@[i]@ == p,
{
    items.iter().cloned().permutations(k).collect()
}

/// The elements of `s` with later duplicates removed: first occurrences
/// only, in order of first appearance.
pub open spec fn dedup_spec(s: Seq<u64>) -> Seq<u64>
    decreases s.len(),
{
    if s.len() == 0 {
        Seq::empty()
    } else {
        let rest = dedup_spec(s.drop_last());
        if s.drop_last().contains(s.last()) {
            rest
        } else {
            rest.push(s.last())
        }
    }
}

/// Deduplication keeps exactly the elements of `s`, once each.
pub proof fn lemma_dedup(s: Seq<u64>)
    ensures
        dedup_spec(s).no_duplicates(),
        forall|x: u64| dedup_spec(s).contains(x) == s.contains(x),
        dedup_spec(s).len() <= s.len(),
    decreases s.len(),
{
    if s.len() > 0 {
        lemma_dedup(s.drop_last());
        let rest = dedup_spec(s.drop_last());
        assert forall|x: u64| dedup_spec(s).contains(x) == s.contains(x) by {
            if s.contains(x) {
                let j = choose|j: int| 0 <= j < s.len() && s[j] == x;
                if j < s.len() - 1 {
                    assert(s.drop_last()[j] == x);
                    assert(s.drop_last().contains(x));
                    assert(rest.contains(x));
                    if !s.drop_last().contains(s.last()) {
                        let a = choose|a: int| 0 <= a < rest.len() && rest[a] == x;
                        assert(dedup_spec(s)[a] == x);
                    }
                    assert(dedup_spec(s).contains(x));
                } else {
                    assert(x == s.last());
                    if s.drop_last().contains(s.last()) {
                        assert(rest.contains(x));
                    } else {
                        assert(dedup_spec(s)[rest.len() as int] == x);
                        assert(dedup_spec(s).contains(x));
                    }
                }
            }
            if dedup_spec(s).contains(x) {
                let j = choose|j: int| 0 <= j < dedup_spec(s).len() && dedup_spec(s)[j] == x;
                if s.drop_last().contains(s.last()) {
                    assert(rest[j] == x);
                    assert(rest.contains(x));
                } else if j < rest.len() {
                    assert(rest[j] == x);
                    assert(rest.contains(x));
                } else {
                    assert(x == s.last());
                    assert(s[s.len() - 1] == x);
                    assert(s.contains(x));
                }
                if rest.contains(x) {
                    assert(s.drop_last().contains(x));
                    let a = choose|a: int| 0 <= a < s.drop_last().len() && s.drop_last()[a] == x;
                    assert(s[a] == x);
                    assert(s.contains(x));
                }
            }
        }
        if !s.drop_last().contains(s.last()) {
            assert(dedup_spec(s).no_duplicates()) by {
                assert(!rest.contains(s.last()));
                assert(forall|a: int| 0 <= a < rest.len() ==> rest[a] != s.last());
                assert(forall|a: int|
                    0 <= a < rest.len() ==> #[trigger] dedup_spec(s)[a] == rest[a]);
            }
        }
    }
}

/// Whether `x` occurs in `v`.
fn contains_id(v: &Vec<u64>, x: u64) -> (r: bool)
    ensures
        r == v@.contains(x),
{
    let mut i: usize = 0;
    while i < v.len()
        invariant
            i <= v@.len(),
            forall|j: int| 0 <= j < i ==> v@[j] != x,
        decreases v@.len() - i,
    {
        if v[i] == x {
            return true;
        }
        i += 1;
    }
    proof {
        if v@.contains(x) {
            let j = choose|j: int| 0 <= j < v@.len() && v@[j] == x;
            assert(v@[j] != x);
        }
    }
    false
}

/// The unique identifiers of `ids`, in order of first appearance.
fn dedup_ids(ids: &Vec<u64>) -> (r: Vec<u64>)
    ensures
        r@ == dedup_spec(ids@),
{
    let mut out: Vec<u64> = Vec::new();
    let mut i: usize = 0;
    proof {
        assert(ids@.take(0) =~= Seq::<u64>::empty());
        assert(out@ =~= dedup_spec(ids@.take(0)));
    }
    while i < ids.len()
        invariant
            i <= ids@.len(),
            out@ == dedup_spec(ids@.take(i as int)),
        decreases ids@.len() - i,
    {
        proof {
            assert(ids@.take(i as int + 1).drop_last() =~= ids@.take(i as int));
            assert(ids@.take(i as int + 1).last() == ids@[i as int]);
            lemma_dedup(ids@.take(i as int));
        }
        if !contains_id(&out, ids[i]) {
            out.push(ids[i]);
        }
        i += 1;
    }
    proof {
        assert(ids@.take(i as int) =~= ids@);
    }
    out
}

/// The inner-product numerator of a one-count-per-identifier permutation
/// fingerprint against the tally of `ids`: the sum, over the permutation's
/// identifiers, of their occurrence counts in `ids`.
pub open spec fn perm_dot(ids: Seq<u64>, p: Seq<u64>) -> nat
    decreases p.len(),
{
    if p.len() == 0 {
        0
    } else {
        count_in(ids, p[0]) + perm_dot(ids, p.drop_first())
    }
}

/// Both candidates of a permutation stand in the list with the permutation's
/// exact score: `perm_dot(ids, p) / sqrt(qn * |p|)`, where `qn` is the
/// squared norm of the query tally.
pub open spec fn pair_present(list: Seq<Candidate>, ids: Seq<u64>, qn: u64, p: Seq<u64>) -> bool {
    &&& exists|i: int|
        0 <= i < list.len() && (#[trigger] list[i]).payload@ == payload_of(p) && list[i].score.num
            == perm_dot(ids, p) && list[i].score.den == qn * p.len()
    &&& exists|i: int|
        0 <= i < list.len() && (#[trigger] list[i]).payload@ == sha256_of(payload_of(p))
            && list[i].score.num == perm_dot(ids, p) && list[i].score.den == qn * p.len()
}

/// Non-increasing by exact score.
pub open spec fn sorted_desc(s: Seq<Candidate>) -> bool {
    forall|i: int, j: int| 0 <= i < j < s.len() ==> score_ge(s[i].score, s[j].score)
}

/// What the candidate generator guarantees of its output for the identifier
/// sequence `ids`, with `qn` the squared norm of the query tally: the list
/// is sorted by non-increasing score, has one pair of candidates per
/// permutation of each non-empty subset of the unique identifiers, and
/// holds both candidates of every such permutation with its exact score.
pub open spec fn generated_ok(list: Seq<Candidate>, ids: Seq<u64>, qn: u64) -> bool {
    &&& sorted_desc(list)
    &&& list.len() == 2 * perm_sum(dedup_spec(ids).len(), 1)
    &&& forall|p: Seq<u64>|
        is_perm_of(p, dedup_spec(ids)) && 1 <= p.len() <= dedup_spec(ids).len()
            ==> #[trigger] pair_present(list, ids, qn, p)
}

/// `ids` is the identifier sequence a fresh tokenizer assigns to the query:
/// one identifier per word, read from a well-formed table holding exactly
/// the query's words in order of first appearance.
pub open spec fn query_tokenizes_to(query: Seq<char>, ids: Seq<u64>) -> bool {
    exists|t: PrimeTokenizer|
        {
            &&& #[trigger] t.wf()
            &&& t.toks() == fresh_words(Seq::<Seq<u8>>::empty(), words_of(lower_of(query)))
            &&& ids.len() == words_of(lower_of(query)).len()
            &&& forall|i: int|
                0 <= i < ids.len() ==> ids[i] == t.id_of(
                    #[trigger] words_of(lower_of(query))[i],
                )
        }
}

/// The list is a correctly generated, ranked candidate list for `ids`,
/// for some squared query norm.
pub open spec fn generated_for(list: Seq<Candidate>, ids: Seq<u64>) -> bool {
    exists|qn: u64| #[trigger] generated_ok(list, ids, qn)
}

/// An entry list with one count per identifier.
pub open spec fn ones_of(p: Seq<u64>) -> Seq<(u64, u64)> {
    p.map_values(|id: u64| (id, 1u64))
}

proof fn lemma_ones_sums(p: Seq<u64>)
    ensures
        sum_counts(ones_of(p)) == p.len(),
        crate::fingerprint::sum_sq(ones_of(p)) == p.len(),
    decreases p.len(),
{
    if p.len() > 0 {
        assert(ones_of(p).drop_first() =~= ones_of(p.drop_first()));
        assert(ones_of(p)[0] == (p[0], 1u64));
        lemma_ones_sums(p.drop_first());
        assert(sum_counts(ones_of(p)) == 1nat + sum_counts(ones_of(p.drop_first())));
        assert(crate::fingerprint::sum_sq(ones_of(p)) == 1nat + crate::fingerprint::sum_sq(
            ones_of(p.drop_first()),
        ));
    } else {
        assert(ones_of(p).len() == 0);
    }
}

proof fn lemma_ones_dot(p: Seq<u64>, qe: Seq<(u64, u64)>, ids: Seq<u64>)
    requires
        forall|id: u64| #[trigger] lookup(qe, id) == count_in(ids, id),
    ensures
        dot_num(ones_of(p), qe) == perm_dot(ids, p),
    decreases p.len(),
{
    if p.len() > 0 {
        assert(ones_of(p).drop_first() =~= ones_of(p.drop_first()));
        assert(ones_of(p)[0] == (p[0], 1u64));
        lemma_ones_dot(p.drop_first(), qe, ids);
        assert(lookup(qe, p[0]) == count_in(ids, p[0]));
        assert(dot_num(ones_of(p), qe) == (1nat * lookup(qe, p[0])) as nat + dot_num(
            ones_of(p.drop_first()),
            qe,
        ));
    } else {
        assert(ones_of(p).len() == 0);
    }
}

/// The fingerprint of a sequence of pairwise-distinct identifiers: one
/// count per identifier, squared norm the sequence's length.
fn ones_fingerprint(p: &Vec<u64>) -> (r: crate::fingerprint::Fingerprint)
    requires
        p@.no_duplicates(),
        p@.len() <= MAX_TOTAL_COUNT,
    ensures
        r.wf(),
        r.entries@ == ones_of(p@),
        r.norm_sq == p@.len(),
{
    let mut entries: Vec<(u64, u64)> = Vec::new();
    let mut i: usize = 0;
    proof {
        assert(entries@ =~= ones_of(p@.take(0)));
    }
    while i < p.len()
        invariant
            i <= p@.len(),
            entries@ == ones_of(p@.take(i as int)),
        decreases p@.len() - i,
    {
        entries.push((p[i], 1));
        proof {
            assert(entries@ =~= ones_of(p@.take(i as int + 1)));
        }
        i += 1;
    }
    proof {
        assert(p@.take(i as int) =~= p@);
        lemma_ones_sums(p@);
        assert(crate::fingerprint::keys_distinct(entries@)) by {
            assert(forall|a: int| 0 <= a < p@.len() ==> (#[trigger] entries@[a]).0 == p@[a]);
        }
        assert(crate::fingerprint::counts_positive(entries@)) by {
            assert(forall|a: int| 0 <= a < p@.len() ==> (#[trigger] entries@[a]).1 == 1u64);
        }
    }
    let n = p.len();
    crate::fingerprint::Fingerprint { entries, norm_sq: n as u64 }
}

/// Insertion sort by non-increasing exact score: the result is sorted and
/// holds exactly the input's candidates.
fn sort_candidates(v: Vec<Candidate>) -> (r: Vec<Candidate>)
    requires
        forall|i: int| 0 <= i < v@.len() ==> (#[trigger] v@[i]).score.wf(),
    ensures
        sorted_desc(r@),
        r@.to_multiset() == v@.to_multiset(),
        r@.len() == v@.len(),
{
    broadcast use vstd::seq_lib::group_to_multiset_ensures;
    broadcast use vstd::seq_lib::to_multiset_insert;

    let ghost orig = v@;
    let mut src = v;
    let mut out: Vec<Candidate> = Vec::new();
    while src.len() > 0
        invariant
            sorted_desc(out@),
            forall|i: int| 0 <= i < out@.len() ==> (#[trigger] out@[i]).score.wf(),
            forall|i: int| 0 <= i < src@.len() ==> (#[trigger] src@[i]).score.wf(),
            out@.to_multiset().add(src@.to_multiset()) == orig.to_multiset(),
            out@.len() + src@.len() == orig.len(),
        decreases src@.len(),
    {
        let ghost src_before = src@;
        let c = src.pop().unwrap();
        proof {
            assert(src_before =~= src@.push(c));
            vstd::seq_lib::to_multiset_build::<Candidate>(src@, c);
            assert(src_before.to_multiset() =~= src@.to_multiset().insert(c));
        }
        let mut pos: usize = 0;
        while pos < out.len()
            invariant
                pos <= out@.len(),
                sorted_desc(out@),
                c.score.wf(),
                forall|i: int| 0 <= i < out@.len() ==> (#[trigger] out@[i]).score.wf(),
                forall|j: int| 0 <= j < pos ==> score_ge((#[trigger] out@[j]).score, c.score),
            ensures
                pos <= out@.len(),
                forall|j: int| 0 <= j < pos ==> score_ge((#[trigger] out@[j]).score, c.score),
                pos < out@.len() ==> score_ge(c.score, out@[pos as int].score),
            decreases out@.len() - pos,
        {
            if !score_is_ge(&out[pos].score, &c.score) {
                proof {
                    crate::fingerprint::lemma_score_ge_total(out@[pos as int].score, c.score);
                }
                break ;
            }
            pos += 1;
        }
        let ghost out_before = out@;
        out.insert(pos, c);
        proof {
            assert(out@ == out_before.insert(pos as int, c));
            vstd::seq_lib::to_multiset_insert::<Candidate>(out_before, pos as int, c);
            assert(out@.to_multiset() == out_before.to_multiset().insert(c));
            assert(out@.to_multiset().add(src@.to_multiset()) =~= out_before.to_multiset().add(
                src@.to_multiset().insert(c),
            ));
            assert forall|i: int, j: int| 0 <= i < j < out@.len() implies score_ge(
                out@[i].score,
                out@[j].score,
            ) by {
                let pi = pos as int;
                if j < pi {
                    assert(out@[i] == out_before[i] && out@[j] == out_before[j]);
                } else if i < pi && j == pi {
                    assert(out@[i] == out_before[i] && out@[j] == c);
                } else if i < pi && j > pi {
                    assert(out@[i] == out_before[i] && out@[j] == out_before[j - 1]);
                } else if i == pi {
                    assert(out@[i] == c && out@[j] == out_before[j - 1]);
                    if j - 1 > pi {
                        crate::fingerprint::lemma_score_ge_trans(
                            c.score,
                            out_before[pi].score,
                            out_before[j - 1].score,
                        );
                    }
                } else {
                    assert(out@[i] == out_before[i - 1] && out@[j] == out_before[j - 1]);
                }
            }
        }
    }
    proof {
        assert(src@.to_multiset() =~= Multiset::<Candidate>::empty()) by {
            assert(src@ =~= Seq::<Candidate>::empty());
        }
        assert(out@.to_multiset() =~= orig.to_multiset());
    }
    out
}

/// Generates the ranked candidate list for an identifier sequence: for every
/// permutation of every non-empty subset of the unique identifiers, two
/// candidates (the decimal rendering and its SHA-256 digest), each scored by
/// exact cosine similarity against the full sequence's fingerprint, sorted
/// by non-increasing score. Refuses, returning `None`, a sequence with more
/// than `MAX_QUERY_TOKENS` unique identifiers.
pub fn generate_from_identifiers(identifiers: &Vec<u64>) -> (r: Option<Vec<Candidate>>)
    requires
        identifiers@.len() <= MAX_TOTAL_COUNT,
    ensures
        match r {
            Some(list) => generated_for(list@, identifiers@),
            None => dedup_spec(identifiers@).len() > MAX_QUERY_TOKENS,
        },
{
    broadcast use vstd::seq_lib::group_to_multiset_ensures;

    let ghost ids = identifiers@;
    let uniq = dedup_ids(identifiers);
    proof {
        lemma_dedup(ids);
    }
    if uniq.len() > MAX_QUERY_TOKENS {
        return None;
    }
    let qfp = build_vector(identifiers);
    let ghost qn = qfp.norm_sq;
    let ghost u = uniq@.len() as nat;
    let mut cands: Vec<Candidate> = Vec::new();
    let mut k: usize = uniq.len();
    proof {
        assert(perm_sum(u, (k + 1) as nat) == 0);
    }
    while k >= 1
        invariant
            k <= u,
            u == uniq@.len(),
            uniq@ == dedup_spec(ids),
            uniq@.no_duplicates(),
            u <= MAX_QUERY_TOKENS,
            ids == identifiers@,
            ids.len() <= MAX_TOTAL_COUNT,
            qfp.wf(),
            qn == qfp.norm_sq,
            (qn == 0) == (ids.len() == 0),
            forall|id: u64| #[trigger] qfp.count_of(id) == count_in(ids, id),
            cands@.len() == 2 * perm_sum(u, (k + 1) as nat),
            forall|i: int| 0 <= i < cands@.len() ==> (#[trigger] cands@[i]).score.wf(),
            forall|p: Seq<u64>|
                is_perm_of(p, uniq@) && k < p.len() <= u ==> #[trigger] pair_present(
                    cands@,
                    ids,
                    qn,
                    p,
                ),
        decreases k,
    {
        let perms = k_permutations(&uniq, k);
        let ghost pcount = perm_count(u, k as nat);
        let mut i: usize = 0;
        while i < perms.len()
            invariant
                i <= perms@.len(),
                perms@.len() == pcount,
                pcount == perm_count(u, k as nat),
                1 <= k <= u,
                u == uniq@.len(),
                uniq@ == dedup_spec(ids),
                uniq@.no_duplicates(),
                u <= MAX_QUERY_TOKENS,
                ids == identifiers@,
                ids.len() <= MAX_TOTAL_COUNT,
                qfp.wf(),
                qn == qfp.norm_sq,
                (qn == 0) == (ids.len() == 0),
                forall|id: u64| #[trigger] qfp.count_of(id) == count_in(ids, id),
                forall|a: int|
                    0 <= a < perms@.len() ==> (#[trigger] perms@[a]@).len() == k && is_perm_of(
                        perms@[a]@,
                        uniq@,
                    ),
                cands@.len() == 2 * perm_sum(u, (k + 1) as nat) + 2 * i,
                forall|i2: int| 0 <= i2 < cands@.len() ==> (#[trigger] cands@[i2]).score.wf(),
                forall|p: Seq<u64>|
                    is_perm_of(p, uniq@) && k < p.len() <= u ==> #[trigger] pair_present(
                        cands@,
                        ids,
                        qn,
                        p,
                    ),
                forall|a: int|
                    0 <= a < i ==> #[trigger] pair_present(cands@, ids, qn, perms@[a]@),
            decreases perms@.len() - i,
        {
            let p = &perms[i];
            let payload = render_payload(p);
            let digest = sha256_digest(&payload);
            let pfp = ones_fingerprint(p);
            let score = dot_product(&pfp, &qfp);
            proof {
                assert forall|id: u64| #[trigger] lookup(qfp.entries@, id) == count_in(
                    ids,
                    id,
                ) by {
                    assert(qfp.count_of(id) == count_in(ids, id));
                }
                lemma_ones_dot(p@, qfp.entries@, ids);
                assert(ids.len() > 0) by {
                    assert(uniq@.contains(uniq@[0]));
                    lemma_dedup(ids);
                    assert(ids.contains(uniq@[0]));
                }
                assert(qn > 0);
            }
            let ghost before = cands@;
            cands.push(Candidate { score: Score { num: score.num, den: score.den }, payload });
            cands.push(Candidate { score: Score { num: score.num, den: score.den }, payload: digest });
            proof {
                assert(cands@[before.len() as int].payload@ == payload_of(p@));
                assert(cands@[before.len() as int + 1].payload@ == sha256_of(payload_of(p@)));
                assert(cands@[before.len() as int].score.num == perm_dot(ids, p@));
                assert(cands@[before.len() as int].score.den == qn * p@.len());
                assert(forall|a: int| 0 <= a < before.len() ==> cands@[a] == before[a]);
                assert forall|p2: Seq<u64>|
                    is_perm_of(p2, uniq@) && k < p2.len() <= u implies #[trigger] pair_present(
                    cands@,
                    ids,
                    qn,
                    p2,
                ) by {
                    assert(pair_present(before, ids, qn, p2));
                }
                assert forall|a: int| 0 <= a < i + 1 implies #[trigger] pair_present(
                    cands@,
                    ids,
                    qn,
                    perms@[a]@,
                ) by {
                    if a < i {
                        assert(pair_present(before, ids, qn, perms@[a]@));
                    } else {
                        assert(pair_present(cands@, ids, qn, p@));
                    }
                }
            }
            i += 1;
        }
        proof {
            assert forall|p: Seq<u64>|
                is_perm_of(p, uniq@) && k - 1 < p.len() <= u implies #[trigger] pair_present(
                cands@,
                ids,
                qn,
                p,
            ) by {
                if p.len() == k {
                    let a = choose|a: int| 0 <= a < perms@.len() && perms@[a]@ == p;
                    assert(pair_present(cands@, ids, qn, perms@[a]@));
                }
            }
            assert(perm_sum(u, k as nat) == perm_count(u, k as nat) + perm_sum(u, (k + 1) as nat));
        }
        k -= 1;
    }
    let ghost presort = cands@;
    let sorted = sort_candidates(cands);
    proof {
        assert forall|p: Seq<u64>|
            is_perm_of(p, uniq@) && 1 <= p.len() <= u implies #[trigger] pair_present(
            sorted@,
            ids,
            qn,
            p,
        ) by {
            assert(pair_present(presort, ids, qn, p));
            let i1 = choose|i: int|
                0 <= i < presort.len() && (#[trigger] presort[i]).payload@ == payload_of(p)
                    && presort[i].score.num == perm_dot(ids, p) && presort[i].score.den == qn
                    * p.len();
            let c1 = presort[i1];
            assert(presort.to_multiset().count(c1) > 0) by {
                assert(presort.contains(c1));
            }
            assert(sorted@.contains(c1)) by {
                assert(sorted@.to_multiset().count(c1) > 0);
            }
            let j1 = choose|j: int| 0 <= j < sorted@.len() && sorted@[j] == c1;
            assert(sorted@[j1].payload@ == payload_of(p));
            let i2 = choose|i: int|
                0 <= i < presort.len() && (#[trigger] presort[i]).payload@ == sha256_of(
                    payload_of(p),
                ) && presort[i].score.num == perm_dot(ids, p) && presort[i].score.den == qn
                    * p.len();
            let c2 = presort[i2];
            assert(presort.to_multiset().count(c2) > 0) by {
                assert(presort.contains(c2));
            }
            assert(sorted@.contains(c2)) by {
                assert(sorted@.to_multiset().count(c2) > 0);
            }
            let j2 = choose|j: int| 0 <= j < sorted@.len() && sorted@[j] == c2;
            assert(sorted@[j2].payload@ == sha256_of(payload_of(p)));
        }
        assert(generated_ok(sorted@, ids, qn));
        assert(generated_for(sorted@, identifiers@)) by {
            assert(generated_ok(sorted@, identifiers@, qn));
        }
    }
    Some(sorted)
}

/// Generates the ranked candidate list of a query text, as the original
/// pipeline does: tokenize the query with a fresh tokenizer, then enumerate,
/// score and rank the candidates of the resulting identifier sequence.
/// `None` when the query is too large for the generator (more unique words
/// than `MAX_QUERY_TOKENS`, more words than `MAX_TOTAL_COUNT`, or a failed
/// identifier assignment).
pub fn generate_resonant_candidates(query: &str) -> (r: Option<Vec<Candidate>>)
    ensures
        match r {
            Some(list) => sorted_desc(list@) && exists|ids: Seq<u64>|
                #[trigger] query_tokenizes_to(query@, ids) && generated_for(list@, ids),
            None => true,
        },
{
    let mut tokenizer = PrimeTokenizer::new();
    let toked = tokenizer.tokenize(query);
    match toked {
        Some(identifiers) => {
            if identifiers.len() > MAX_TOTAL_COUNT {
                return None;
            }
            let r = generate_from_identifiers(&identifiers);
            proof {
                if r is Some {
                    let list = r->Some_0;
                    assert(generated_for(list@, identifiers@));
                    let qn0 = choose|qn: u64| #[trigger] generated_ok(list@, identifiers@, qn);
                    assert(generated_ok(list@, identifiers@, qn0));
                    assert(sorted_desc(list@));
                    let w = words_of(lower_of(query@));
                    assert(tokenizer.toks() == Seq::<Seq<u8>>::empty() + fresh_words(
                        Seq::<Seq<u8>>::empty(),
                        w,
                    ));
                    assert(Seq::<Seq<u8>>::empty() + fresh_words(Seq::<Seq<u8>>::empty(), w)
                        =~= fresh_words(Seq::<Seq<u8>>::empty(), w));
                    assert(query_tokenizes_to(query@, identifiers@)) by {
                        assert(tokenizer.wf());
                        assert(tokenizer.toks() == fresh_words(Seq::<Seq<u8>>::empty(), w));
                        assert(identifiers@.len() == w.len());
                        assert(forall|i: int|
                            0 <= i < identifiers@.len() ==> identifiers@[i] == tokenizer.id_of(
                                #[trigger] w[i],
                            ));
                    }
                }
            }
            r
        },
        None => None,
    }
}

} // verus!
