use vstd::prelude::*;

use crate::is_prime;

verus! {

/// Upper bound on assignable identifiers. Keeping every identifier strictly
/// below it leaves the prime search a comfortable margin below the range
/// where the prime generator could no longer serve it.
pub const PRIME_ID_CAP: u64 = 0x4000_0000_0000_0000;

/// `p` is the least prime strictly greater than `n`. At most one `p`
/// satisfies this for a given `n`.
pub open spec fn is_min_prime_above(n: int, p: int) -> bool {
    &&& is_prime(p)
    &&& p > n
    &&& forall|q: int| n < q < p ==> !is_prime(q)
}

/// The views of a sequence of byte vectors.
pub open spec fn views_of(s: Seq<Vec<u8>>) -> Seq<Seq<u8>> {
    s.map_values(|v: Vec<u8>| v@)
}

/// The words of `w` that are not in `toks`, first occurrences only, in
/// order of first appearance: exactly the words a tokenizer whose table
/// holds `toks` records anew when it processes `w`.
pub open spec fn fresh_words(toks: Seq<Seq<u8>>, w: Seq<Seq<u8>>) -> Seq<Seq<u8>>
    decreases w.len(),
{
    if w.len() == 0 {
        Seq::empty()
    } else {
        let rest = fresh_words(toks, w.drop_last());
        if toks.contains(w.last()) || w.drop_last().contains(w.last()) {
            rest
        } else {
            rest.push(w.last())
        }
    }
}

/// The least prime strictly above `n` (well-defined wherever some minimal
/// prime above `n` exists, which each successful prime search witnesses).
pub open spec fn min_prime_above(n: int) -> int {
    choose|p: int| is_min_prime_above(n, p)
}

/// Whether `k` successive least-prime assignments, starting above `cur`,
/// all stay below `PRIME_ID_CAP`.
pub open spec fn chain_fits(cur: int, k: nat) -> bool
    decreases k,
{
    if k == 0 {
        true
    } else {
        min_prime_above(cur) < PRIME_ID_CAP && chain_fits(min_prime_above(cur), (k - 1) as nat)
    }
}

/// The largest identifier after `k` least-prime assignments starting
/// above `cur`.
pub open spec fn chain_end(cur: int, k: nat) -> int
    decreases k,
{
    if k == 0 {
        cur
    } else {
        chain_end(min_prime_above(cur), (k - 1) as nat)
    }
}

/// At most one minimal prime lies above `n`.
pub proof fn lemma_min_prime_unique(n: int, p: int)
    requires
        is_min_prime_above(n, p),
    ensures
        min_prime_above(n) == p,
{
    let q = min_prime_above(n);
    assert(is_min_prime_above(n, q)) by {
        assert(exists|x: int| is_min_prime_above(n, x));
    }
    if q < p {
        assert(!is_prime(q));
    }
    if p < q {
        assert(!is_prime(p));
    }
}

/// Extending a chain by one step appends the least prime above its end.
proof fn lemma_chain_snoc(cur: int, k: nat)
    ensures
        chain_end(cur, (k + 1) as nat) == min_prime_above(chain_end(cur, k)),
        chain_fits(cur, (k + 1) as nat) == (chain_fits(cur, k) && min_prime_above(
            chain_end(cur, k),
        ) < PRIME_ID_CAP),
    decreases k,
{
    let m = min_prime_above(cur);
    if k == 0 {
        assert(chain_end(m, 0nat) == m);
        assert(chain_fits(m, 0nat));
        assert(chain_end(cur, 1nat) == chain_end(m, 0nat));
        assert(chain_fits(cur, 1nat) == (m < PRIME_ID_CAP && chain_fits(m, 0nat)));
    } else {
        lemma_chain_snoc(m, (k - 1) as nat);
        assert(chain_end(cur, (k + 1) as nat) == chain_end(m, k));
        assert(chain_end(cur, k as nat) == chain_end(m, (k - 1) as nat));
        assert(chain_fits(cur, (k + 1) as nat) == (m < PRIME_ID_CAP && chain_fits(m, k)));
        assert(chain_fits(cur, k as nat) == (m < PRIME_ID_CAP && chain_fits(
            m,
            (k - 1) as nat,
        )));
    }
}

/// A chain that fits also fits every shorter length.
proof fn lemma_chain_fits_prefix(cur: int, k1: nat, k2: nat)
    requires
        k1 <= k2,
        chain_fits(cur, k2),
    ensures
        chain_fits(cur, k1),
    decreases k1,
{
    if k1 > 0 {
        lemma_chain_fits_prefix(min_prime_above(cur), (k1 - 1) as nat, (k2 - 1) as nat);
    }
}

/// One step of word processing extends the fresh-word list by the word
/// exactly when it is new.
proof fn lemma_fresh_words_take(toks: Seq<Seq<u8>>, w: Seq<Seq<u8>>, i: int)
    requires
        0 <= i < w.len(),
    ensures
        fresh_words(toks, w.take(i + 1)) == if toks.contains(w[i]) || w.take(i).contains(w[i]) {
            fresh_words(toks, w.take(i))
        } else {
            fresh_words(toks, w.take(i)).push(w[i])
        },
{
    assert(w.take(i + 1).drop_last() =~= w.take(i));
    assert(w.take(i + 1).last() == w[i]);
}

/// A fresh word comes from `w` and is not in `toks`.
proof fn lemma_fresh_sub(toks: Seq<Seq<u8>>, u: Seq<Seq<u8>>, x: Seq<u8>)
    requires
        fresh_words(toks, u).contains(x),
    ensures
        u.contains(x),
        !toks.contains(x),
    decreases u.len(),
{
    if u.len() > 0 {
        let rest = fresh_words(toks, u.drop_last());
        if rest.contains(x) {
            lemma_fresh_sub(toks, u.drop_last(), x);
            let j = choose|j: int| 0 <= j < u.drop_last().len() && u.drop_last()[j] == x;
            assert(u[j] == x);
        } else {
            assert(x == u.last());
            assert(u[u.len() - 1] == x);
        }
    }
}

/// LAW: a table that already holds every word of a text gains nothing from
/// it: the fresh-word list is empty. With the tokenize contract this pins
/// a repeated tokenization: the second call satisfies `chain_fits` at
/// length zero, so it succeeds, extends the table by nothing, and returns
/// the same table's identifiers for the same words.
pub proof fn lemma_fresh_words_none(toks: Seq<Seq<u8>>, w: Seq<Seq<u8>>)
    requires
        forall|i: int| 0 <= i < w.len() ==> toks.contains(#[trigger] w[i]),
    ensures
        fresh_words(toks, w) == Seq::<Seq<u8>>::empty(),
    decreases w.len(),
{
    if w.len() > 0 {
        assert(toks.contains(w[w.len() - 1]));
        assert(forall|i: int|
            0 <= i < w.drop_last().len() ==> #[trigger] w.drop_last()[i] == w[i]);
        lemma_fresh_words_none(toks, w.drop_last());
    }
}

/// Processing more words never shortens the fresh-word list.
proof fn lemma_fresh_len_mono(toks: Seq<Seq<u8>>, w: Seq<Seq<u8>>, i: int)
    requires
        0 <= i <= w.len(),
    ensures
        fresh_words(toks, w.take(i)).len() <= fresh_words(toks, w).len(),
    decreases w.len() - i,
{
    if i < w.len() {
        lemma_fresh_words_take(toks, w, i);
        lemma_fresh_len_mono(toks, w, i + 1);
    } else {
        assert(w.take(i) =~= w);
    }
}

/// Relies on primal::Primes::all, an iterator that yields every prime in
/// increasing order starting from 2, so its first element strictly above `n`
/// is the least prime above `n`. The bound on `n` keeps the search within
/// the range the generator serves (a prime above `n` then exists among the
/// primes that fit the generator's word size).
#[verifier::external_body]
fn next_prime_above(n: u64) -> (r: u64)
    requires
        n < 0x8000_0000_0000_0000,
    ensures
        is_min_prime_above(n as int, r as int),
{
    let p = primal::Primes::all().find(|&p| p as u64 > n).expect("the primes are unbounded");
    p as u64
}

/// The words of `s` itself: what the matches of the word pattern `\b\w+\b`
/// read in `s`, in order of appearance, as byte strings. Lowercasing, where
/// wanted, happens separately through `lower_of` before the match.
pub uninterp spec fn words_of(s: Seq<char>) -> Seq<Seq<u8>>;

/// The lowercase folding of `s`.
pub uninterp spec fn lower_of(s: Seq<char>) -> Seq<char>;

/// Relies on str::to_lowercase: the result is a function of the input
/// characters alone.
#[verifier::external_body]
fn lowercase(text: &str) -> (r: String)
    ensures
        r@ == lower_of(text@),
{
    text.to_lowercase()
}

/// Relies on regex::Regex::find_iter with the statically valid pattern
/// `\b\w+\b`: the matches are the maximal runs of word characters of the
/// text, found left to right, and are a function of the text alone.
#[verifier::external_body]
fn find_words(text: &str) -> (r: Vec<Vec<u8>>)
    ensures
        views_of(r@) == words_of(text@),
{
    let re = regex::Regex::new(r"\b\w+\b").expect("the word pattern is statically valid");
    re.find_iter(text).map(|m| m.as_str().as_bytes().to_vec()).collect()
}

/// Byte-wise equality of two byte vectors.
fn bytes_eq(a: &Vec<u8>, b: &Vec<u8>) -> (r: bool)
    ensures
        r == (a@ == b@),
{
    if a.len() != b.len() {
        proof {
            if a@ == b@ {
                assert(a@.len() == b@.len());
            }
        }
        return false;
    }
    let mut i: usize = 0;
    while i < a.len()
        invariant
            i <= a@.len(),
            a@.len() == b@.len(),
            forall|j: int| 0 <= j < i ==> a@[j] == b@[j],
        decreases a@.len() - i,
    {
        if a[i] != b[i] {
            proof {
                if a@ == b@ {
                    assert(a@[i as int] == b@[i as int]);
                }
            }
            return false;
        }
        i += 1;
    }
    proof {
        assert(a@ =~= b@);
    }
    true
}

/// Maps each word seen so far to a unique prime identifier, assigned in
/// strictly increasing order: a word never seen before gets the least prime
/// above the largest identifier assigned so far, starting the search above 2.
pub struct PrimeTokenizer {
    pub tokens: Vec<Vec<u8>>,
    pub ids: Vec<u64>,
    pub current: u64,
}

impl PrimeTokenizer {
    /// The known tokens, as byte strings.
    pub open spec fn toks(self) -> Seq<Seq<u8>> {
        views_of(self.tokens@)
    }

    /// Whether `t` has been assigned an identifier.
    pub open spec fn has_token(self, t: Seq<u8>) -> bool {
        self.toks().contains(t)
    }

    /// The position at which `t` was recorded.
    pub open spec fn token_index(self, t: Seq<u8>) -> int {
        choose|i: int| 0 <= i < self.toks().len() && self.toks()[i] == t
    }

    /// The identifier assigned to `t`.
    pub open spec fn id_of(self, t: Seq<u8>) -> u64 {
        self.ids@[self.token_index(t)]
    }

    /// Token/identifier tables form a bijection; identifiers are primes,
    /// assigned in strictly increasing order, each the least prime above its
    /// predecessor (above 2 for the first); `current` is the largest
    /// identifier assigned so far.
    pub open spec fn wf(self) -> bool {
        &&& self.tokens@.len() == self.ids@.len()
        &&& self.toks().no_duplicates()
        &&& forall|i: int, j: int| 0 <= i < j < self.ids@.len() ==> self.ids@[i] < self.ids@[j]
        &&& forall|i: int|
            0 <= i < self.ids@.len() ==> is_min_prime_above(
                if i == 0 {
                    2int
                } else {
                    self.ids@[i - 1] as int
                },
                #[trigger] self.ids@[i] as int,
            )
        &&& self.current == if self.ids@.len() == 0 {
            2u64
        } else {
            self.ids@[self.ids@.len() - 1]
        }
        &&& self.current < PRIME_ID_CAP
        &&& forall|i: int| 0 <= i < self.ids@.len() ==> #[trigger] self.ids@[i] < PRIME_ID_CAP
    }

    /// A fresh tokenizer: no tokens known, allocation starts above 2.
    pub fn new() -> (r: PrimeTokenizer)
        ensures
            r.wf(),
            r.toks() == Seq::<Seq<u8>>::empty(),
            r.ids@ == Seq::<u64>::empty(),
            r.current == 2,
    {
        let r = PrimeTokenizer { tokens: Vec::new(), ids: Vec::new(), current: 2 };
        proof {
            assert(r.toks() =~= Seq::<Seq<u8>>::empty());
            assert(r.ids@ =~= Seq::<u64>::empty());
        }
        r
    }

    /// With distinct tokens, the index of a recorded token is the position
    /// it was recorded at.
    proof fn lemma_token_index_is(self, j: int, t: Seq<u8>)
        requires
            self.toks().no_duplicates(),
            0 <= j < self.toks().len(),
            self.toks()[j] == t,
        ensures
            self.token_index(t) == j,
    {
        assert(self.has_token(t)) by {
            assert(self.toks()[j] == t);
        }
        let i = self.token_index(t);
        assert(0 <= i < self.toks().len() && self.toks()[i] == t) by {
            assert(exists|i2: int| 0 <= i2 < self.toks().len() && self.toks()[i2] == t);
        }
        if i != j {
            assert(self.toks()[i] == self.toks()[j]);
        }
    }

    /// Index of a token in the table, when recorded.
    fn find_token(&self, t: &Vec<u8>) -> (r: Option<usize>)
        ensures
            match r {
                Some(j) => j < self.tokens@.len() && self.toks()[j as int] == t@,
                None => !self.has_token(t@),
            },
    {
        let mut i: usize = 0;
        while i < self.tokens.len()
            invariant
                i <= self.tokens@.len(),
                forall|j: int| 0 <= j < i ==> self.toks()[j] != t@,
            decreases self.tokens@.len() - i,
        {
            if bytes_eq(&self.tokens[i], t) {
                proof {
                    assert(self.toks()[i as int] == self.tokens@[i as int]@);
                }
                return Some(i);
            }
            proof {
                assert(self.toks()[i as int] == self.tokens@[i as int]@);
            }
            i += 1;
        }
        proof {
            if self.has_token(t@) {
                let j = choose|j: int| 0 <= j < self.toks().len() && self.toks()[j] == t@;
                assert(self.toks()[j] != t@);
            }
        }
        None
    }

    /// Records a token never seen before, assigning it the least prime above
    /// the largest identifier assigned so far. Returns the identifier, or
    /// `None`, leaving the table unchanged, if the assignment would exceed
    /// `PRIME_ID_CAP`.
    #[verifier::rlimit(100)]
    fn insert_fresh(&mut self, t: Vec<u8>) -> (r: Option<u64>)
        requires
            old(self).wf(),
            !old(self).has_token(t@),
        ensures
            final(self).wf(),
            match r {
                Some(p) => final(self).toks() == old(self).toks().push(t@) && final(self).ids@
                    == old(self).ids@.push(p) && final(self).current == p && p as int
                    == min_prime_above(old(self).current as int) && p < PRIME_ID_CAP,
                None => *final(self) == *old(self) && min_prime_above(old(self).current as int)
                    >= PRIME_ID_CAP,
            },
    {
        let p = next_prime_above(self.current);
        proof {
            lemma_min_prime_unique(self.current as int, p as int);
        }
        if p < PRIME_ID_CAP {
            let ghost before = *self;
            proof {
                assert(t@ == t@);
            }
            let ghost tv = t@;
            self.tokens.push(t);
            self.ids.push(p);
            self.current = p;
            proof {
                let n = before.toks().len();
                assert(self.toks() =~= before.toks().push(tv));
                assert(self.toks().no_duplicates()) by {
                    assert(forall|a: int| 0 <= a < n ==> self.toks()[a] == before.toks()[a]);
                    assert(self.toks()[n as int] == tv);
                    assert(forall|a: int| 0 <= a < n ==> before.toks()[a] != tv) by {
                        if exists|a: int| 0 <= a < n && before.toks()[a] == tv {
                            assert(before.has_token(tv));
                        }
                    }
                }
                assert(forall|a: int| 0 <= a < n ==> #[trigger] self.ids@[a] == before.ids@[a]);
                assert(forall|a: int| 0 <= a < n ==> self.ids@[a] < p) by {
                    if n > 0 {
                        assert(forall|a: int|
                            0 <= a < n - 1 ==> #[trigger] before.ids@[a] < before.ids@[n - 1]);
                        assert(before.ids@[n - 1] == before.current);
                    }
                }
            }
            Some(p)
        } else {
            None
        }
    }

    /// Maps each word of the text, lowercased and in order of appearance, to
    /// its identifier, assigning fresh primes to never-seen words. On
    /// success the table is exactly the old table extended by the text's
    /// not-yet-seen words in order of first appearance; previously recorded
    /// tokens keep their identifiers in any case. Fails, keeping the
    /// assignments made before the failure, exactly when some fresh
    /// assignment would exceed `PRIME_ID_CAP` (beyond any realistic
    /// vocabulary).
    #[verifier::rlimit(100)]
    pub fn tokenize(&mut self, text: &str) -> (r: Option<Vec<u64>>)
        requires
            old(self).wf(),
        ensures
            final(self).wf(),
            forall|t: Seq<u8>|
                #[trigger] old(self).has_token(t) ==> final(self).has_token(t)
                    && final(self).id_of(t) == old(self).id_of(t),
            r is Some <==> chain_fits(
                old(self).current as int,
                fresh_words(old(self).toks(), words_of(lower_of(text@))).len(),
            ),
            match r {
                Some(v) => {
                    &&& final(self).toks() == old(self).toks() + fresh_words(
                        old(self).toks(),
                        words_of(lower_of(text@)),
                    )
                    &&& v@.len() == words_of(lower_of(text@)).len()
                    &&& forall|i: int|
                        0 <= i < words_of(lower_of(text@)).len() ==> final(self).has_token(
                            #[trigger] words_of(lower_of(text@))[i],
                        ) && v@[i] == final(self).id_of(words_of(lower_of(text@))[i])
                },
                None => true,
            },
    {
        let lower = lowercase(text);
        let words = find_words(lower.as_str());
        let ghost w = words_of(lower_of(text@));
        let ghost toks0 = old(self).toks();
        let ghost cur0 = old(self).current as int;
        let mut out: Vec<u64> = Vec::new();
        let mut i: usize = 0;
        let ghost mut idxs: Seq<int> = Seq::empty();
        proof {
            assert(w.take(0) =~= Seq::<Seq<u8>>::empty());
            assert(self.toks() =~= toks0 + fresh_words(toks0, w.take(0)));
        }
        #[verifier::loop_isolation(false)]
        while i < words.len()
            invariant
                i <= words@.len(),
                self.wf(),
                out@.len() == i,
                idxs.len() == i,
                self.toks() == toks0 + fresh_words(toks0, w.take(i as int)),
                forall|a: int| 0 <= a < toks0.len() ==> #[trigger] self.ids@[a] == old(self).ids@[a],
                self.current as int == chain_end(cur0, fresh_words(toks0, w.take(i as int)).len()),
                chain_fits(cur0, fresh_words(toks0, w.take(i as int)).len()),
                forall|j: int|
                    0 <= j < i ==> 0 <= #[trigger] idxs[j] < self.toks().len()
                        && self.toks()[idxs[j]] == words@[j]@ && out@[j] == self.ids@[idxs[j]],
            decreases words@.len() - i,
        {
            let ghost fi = fresh_words(toks0, w.take(i as int));
            proof {
                assert(w[i as int] == words@[i as int]@);
                lemma_fresh_words_take(toks0, w, i as int);
            }
            let found = self.find_token(&words[i]);
            match found {
                Some(j) => {
                    let id = self.ids[j];
                    out.push(id);
                    proof {
                        // the word is already recorded, so nothing fresh is added
                        assert(toks0.contains(w[i as int]) || w.take(i as int).contains(
                            w[i as int],
                        )) by {
                            let a = j as int;
                            if a < toks0.len() {
                                assert(toks0[a] == w[i as int]);
                            } else {
                                assert(fi[a - toks0.len()] == w[i as int]);
                                lemma_fresh_sub(toks0, w.take(i as int), w[i as int]);
                            }
                        }
                        idxs = idxs.push(j as int);
                    }
                },
                None => {
                    // the word is new: not recorded, so neither old nor seen earlier
                    proof {
                        assert(!toks0.contains(w[i as int])) by {
                            if toks0.contains(w[i as int]) {
                                let a = choose|a: int|
                                    0 <= a < toks0.len() && toks0[a] == w[i as int];
                                assert(self.toks()[a] == w[i as int]);
                            }
                        }
                        assert(!w.take(i as int).contains(w[i as int])) by {
                            if w.take(i as int).contains(w[i as int]) {
                                let j = choose|j: int|
                                    0 <= j < i && w.take(i as int)[j] == w[i as int];
                                assert(self.toks()[idxs[j]] == words@[j]@);
                                assert(words@[j]@ == w[j]);
                            }
                        }
                        lemma_chain_snoc(cur0, fi.len());
                    }
                    let ghost mid = *self;
                    let t = words[i].clone();
                    proof {
                        assert(t@ == w[i as int]);
                    }
                    let assigned = self.insert_fresh(t);
                    match assigned {
                        Some(id) => {
                            out.push(id);
                            proof {
                                assert(self.toks() =~= toks0 + fresh_words(
                                    toks0,
                                    w.take(i as int + 1),
                                ));
                                idxs = idxs.push(mid.toks().len() as int);
                            }
                        },
                        None => {
                            proof {
                                assert(!chain_fits(cur0, (fi.len() + 1) as nat));
                                assert(fresh_words(toks0, w.take(i as int + 1)).len() == fi.len()
                                    + 1);
                                lemma_fresh_len_mono(toks0, w, i as int + 1);
                                if chain_fits(cur0, fresh_words(toks0, w).len()) {
                                    lemma_chain_fits_prefix(
                                        cur0,
                                        (fi.len() + 1) as nat,
                                        fresh_words(toks0, w).len(),
                                    );
                                }
                                lemma_table_preserved(*old(self), *self);
                            }
                            return None;
                        },
                    }
                },
            }
            i += 1;
        }
        proof {
            assert(w.take(i as int) =~= w);
            lemma_table_preserved(*old(self), *self);
            assert forall|j: int| 0 <= j < w.len() implies self.has_token(#[trigger] w[j]) && out@[j]
                == self.id_of(w[j]) by {
                assert(w[j] == words@[j]@);
                let a = idxs[j];
                assert(self.toks()[a] == words@[j]@ && out@[j] == self.ids@[a]);
                self.lemma_token_index_is(a, words@[j]@);
            }
        }
        Some(out)
    }
}

/// A table whose front is unchanged keeps every recorded token's identifier.
#[verifier::rlimit(100)]
proof fn lemma_table_preserved(t0: PrimeTokenizer, t1: PrimeTokenizer)
    requires
        t0.toks().no_duplicates(),
        t1.toks().no_duplicates(),
        t0.tokens@.len() == t0.ids@.len(),
        t1.tokens@.len() == t1.ids@.len(),
        t0.toks().len() <= t1.toks().len(),
        forall|a: int| 0 <= a < t0.toks().len() ==> #[trigger] t1.toks()[a] == t0.toks()[a],
        forall|a: int| 0 <= a < t0.toks().len() ==> #[trigger] t1.ids@[a] == t0.ids@[a],
    ensures
        forall|t: Seq<u8>|
            #[trigger] t0.has_token(t) ==> t1.has_token(t) && t1.id_of(t) == t0.id_of(t),
{
    assert forall|t: Seq<u8>| #[trigger] t0.has_token(t) implies t1.has_token(t) && t1.id_of(t)
        == t0.id_of(t) by {
        let a = choose|a: int| 0 <= a < t0.toks().len() && t0.toks()[a] == t;
        assert(t0.toks()[a] == t);
        assert(t1.toks()[a] == t);
        assert(t1.has_token(t));
        t0.lemma_token_index_is(a, t);
        t1.lemma_token_index_is(a, t);
        assert(t0.id_of(t) == t0.ids@[a]);
        assert(t1.id_of(t) == t1.ids@[a]);
        assert(t1.ids@[a] == t0.ids@[a]);
    }
}

/// LAW: tokenizing the same text twice with the same tokenizer yields the
/// same identifier sequence. The tokenize contract pins each output to the
/// identifiers its final table records for the text's words, and keeps every
/// recorded identifier across calls, so the two outputs agree word by word.
pub proof fn lemma_tokenize_deterministic(
    t: PrimeTokenizer,
    w: Seq<Seq<u8>>,
    v1: Seq<u64>,
    v2: Seq<u64>,
)
    requires
        v1.len() == w.len(),
        forall|i: int| 0 <= i < w.len() ==> v1[i] == t.id_of(#[trigger] w[i]),
        v2.len() == w.len(),
        forall|i: int| 0 <= i < w.len() ==> v2[i] == t.id_of(#[trigger] w[i]),
    ensures
        v1 == v2,
{
    assert forall|i: int| 0 <= i < v1.len() implies v1[i] == v2[i] by {
        assert(v1[i] == t.id_of(w[i]));
        assert(v2[i] == t.id_of(w[i]));
    }
    assert(v1 =~= v2);
}

/// LAW: within one tokenizer, distinct tokens carry distinct identifiers,
/// and every assigned identifier is a prime greater than 2.
pub proof fn lemma_identifiers_prime_and_distinct(t: PrimeTokenizer, t1: Seq<u8>, t2: Seq<u8>)
    requires
        t.wf(),
        t.has_token(t1),
        t.has_token(t2),
        t1 != t2,
    ensures
        t.id_of(t1) != t.id_of(t2),
        is_prime(t.id_of(t1) as int),
        t.id_of(t1) > 2,
{
    let i1 = t.token_index(t1);
    let i2 = t.token_index(t2);
    assert(0 <= i1 < t.toks().len() && t.toks()[i1] == t1) by {
        assert(exists|i: int| 0 <= i < t.toks().len() && t.toks()[i] == t1);
    }
    assert(0 <= i2 < t.toks().len() && t.toks()[i2] == t2) by {
        assert(exists|i: int| 0 <= i < t.toks().len() && t.toks()[i] == t2);
    }
    assert(i1 != i2);
    if i1 < i2 {
        assert(t.ids@[i1] < t.ids@[i2]);
    } else {
        assert(t.ids@[i2] < t.ids@[i1]);
    }
    assert(is_min_prime_above(
        if i1 == 0 {
            2int
        } else {
            t.ids@[i1 - 1] as int
        },
        t.ids@[i1] as int,
    ));
    if i1 > 0 {
        assert(is_min_prime_above(2int, t.ids@[0] as int));
        assert(t.ids@[0] < t.ids@[i1]);
    }
}

} // verus!
