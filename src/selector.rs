use vstd::prelude::*;

use crate::hashing::{keccak_256, keccak_of};
use crate::order::{
    entropy_lt, lemma_lex_irreflexive, lemma_lex_sorted_unique, lemma_lex_total,
    lemma_lex_transitive, lex_lt, lex_sorted, lex_sorted_seq_of,
};
use crate::types::{EntropyHash, KeccakHash, Participant};

verus! {

/// Commitments are kept ascending by account, one per account.
pub open spec fn by_account(s: Seq<Participant>) -> bool {
    forall|i: int, j: int| 0 <= i < j < s.len() ==> #[trigger] s[i].account < #[trigger] s[j].account
}

/// The store after `p` is recorded: `p` replaces the entry of its account, or
/// is placed where its account keeps the store ascending.
pub open spec fn upsert(s: Seq<Participant>, p: Participant) -> Seq<Participant>
    decreases s.len(),
{
    if s.len() == 0 {
        seq![p]
    } else if s[0].account == p.account {
        s.update(0, p)
    } else if p.account < s[0].account {
        seq![p] + s
    } else {
        seq![s[0]] + upsert(s.drop_first(), p)
    }
}

/// Every entropy value that occurs in the commitments.
pub open spec fn entropy_set(s: Seq<Participant>) -> Set<EntropyHash> {
    s.map_values(|p: Participant| p.entropy).to_set()
}

/// The bytes of the entropies, one after the other.
pub open spec fn concat_entropies(q: Seq<EntropyHash>) -> Seq<u8>
    decreases q.len(),
{
    if q.len() == 0 {
        Seq::empty()
    } else {
        concat_entropies(q.drop_last()) + q.last()@
    }
}

/// What is hashed to select: the seed, then the distinct entropies in
/// ascending byte order.
pub open spec fn selection_bytes(seed: Seq<u8>, s: Seq<Participant>) -> Seq<u8> {
    seed + concat_entropies(lex_sorted_seq_of(entropy_set(s)))
}

/// The masked hash at position `digest[0] mod len` of the store, if any.
pub open spec fn pick(digest: Seq<u8>, s: Seq<Participant>) -> Option<KeccakHash> {
    if s.len() == 0 {
        None
    } else {
        Some(s[(digest[0] as int) % (s.len() as int)].hash)
    }
}

/// The winning masked hash for a seed and a store of commitments.
pub open spec fn winner_of(seed: Seq<u8>, s: Seq<Participant>) -> Option<KeccakHash> {
    pick(keccak_of(selection_bytes(seed, s)), s)
}

proof fn lemma_upsert_at(s: Seq<Participant>, p: Participant, k: int)
    requires
        0 <= k <= s.len(),
        forall|j: int| 0 <= j < k ==> #[trigger] s[j].account < p.account,
        k < s.len() ==> p.account <= s[k].account,
    ensures
        upsert(s, p) == if k < s.len() && s[k].account == p.account {
            s.update(k, p)
        } else {
            s.insert(k, p)
        },
    decreases k,
{
    if k == 0 {
        if s.len() > 0 && s[0].account != p.account {
            assert(seq![p] + s =~= s.insert(0, p));
        } else if s.len() == 0 {
            assert(seq![p] =~= s.insert(0, p));
        }
    } else {
        let t = s.drop_first();
        assert(forall|j: int| 0 <= j < k - 1 ==> t[j] == s[j + 1]);
        lemma_upsert_at(t, p, k - 1);
        if k < s.len() && s[k].account == p.account {
            assert(seq![s[0]] + t.update(k - 1, p) =~= s.update(k, p));
        } else {
            assert(seq![s[0]] + t.insert(k - 1, p) =~= s.insert(k, p));
        }
    }
}

proof fn lemma_upsert_cons(h: Participant, t: Seq<Participant>, p: Participant)
    ensures
        upsert(seq![h] + t, p) == if h.account == p.account {
            seq![p] + t
        } else if p.account < h.account {
            seq![p, h] + t
        } else {
            seq![h] + upsert(t, p)
        },
{
    let s = seq![h] + t;
    assert(s[0] == h);
    assert(s.drop_first() =~= t);
    if h.account == p.account {
        assert(s.update(0, p) =~= seq![p] + t);
    } else if p.account < h.account {
        assert(seq![p] + s =~= seq![p, h] + t);
    }
}

proof fn lemma_upsert_commute(s: Seq<Participant>, p: Participant, q: Participant)
    requires
        p.account != q.account,
    ensures
        upsert(upsert(s, p), q) == upsert(upsert(s, q), p),
    decreases s.len(),
{
    let e = Seq::<Participant>::empty();
    if s.len() == 0 {
        assert(seq![p] =~= seq![p] + e);
        assert(seq![q] =~= seq![q] + e);
        lemma_upsert_cons(p, e, q);
        lemma_upsert_cons(q, e, p);
        assert(upsert(e, q) == seq![q]);
        assert(upsert(e, p) == seq![p]);
        assert(seq![p, q] =~= seq![p] + seq![q]);
        assert(seq![q, p] =~= seq![q] + seq![p]);
    } else {
        let h = s[0];
        let t = s.drop_first();
        assert(s =~= seq![h] + t);
        lemma_upsert_cons(h, t, p);
        lemma_upsert_cons(h, t, q);
        if h.account == p.account {
            lemma_upsert_cons(p, t, q);
            if q.account < h.account {
                lemma_upsert_cons(q, seq![h] + t, p);
                assert(seq![q, h] + t =~= seq![q] + (seq![h] + t));
                assert(seq![q, p] + t =~= seq![q] + (seq![p] + t));
            } else {
                lemma_upsert_cons(h, upsert(t, q), p);
            }
        } else if h.account == q.account {
            lemma_upsert_cons(q, t, p);
            if p.account < h.account {
                lemma_upsert_cons(p, seq![h] + t, q);
                assert(seq![p, h] + t =~= seq![p] + (seq![h] + t));
                assert(seq![p, q] + t =~= seq![p] + (seq![q] + t));
            } else {
                lemma_upsert_cons(h, upsert(t, p), q);
            }
        } else if p.account < h.account && q.account < h.account {
            lemma_upsert_cons(p, seq![h] + t, q);
            lemma_upsert_cons(q, seq![h] + t, p);
            lemma_upsert_cons(h, t, p);
            assert(seq![p, h] + t =~= seq![p] + (seq![h] + t));
            assert(seq![q, h] + t =~= seq![q] + (seq![h] + t));
            assert(seq![p, q] + (seq![h] + t) =~= seq![p] + (seq![q, h] + t));
            assert(seq![q, p] + (seq![h] + t) =~= seq![q] + (seq![p, h] + t));
            assert(seq![q, p, h] + t =~= seq![q, p] + (seq![h] + t));
            assert(seq![p, q, h] + t =~= seq![p, q] + (seq![h] + t));
        } else if p.account < h.account {
            assert(seq![p, h] + t =~= seq![p] + (seq![h] + t));
            lemma_upsert_cons(p, seq![h] + t, q);
            lemma_upsert_cons(h, t, q);
            lemma_upsert_cons(h, upsert(t, q), p);
            assert(seq![p, h] + upsert(t, q) =~= seq![p] + (seq![h] + upsert(t, q)));
        } else if q.account < h.account {
            assert(seq![q, h] + t =~= seq![q] + (seq![h] + t));
            lemma_upsert_cons(q, seq![h] + t, p);
            lemma_upsert_cons(h, t, p);
            lemma_upsert_cons(h, upsert(t, p), q);
            assert(seq![q, h] + upsert(t, p) =~= seq![q] + (seq![h] + upsert(t, p)));
        } else {
            lemma_upsert_commute(t, p, q);
            lemma_upsert_cons(h, upsert(t, p), q);
            lemma_upsert_cons(h, upsert(t, q), p);
        }
    }
}

/// Selection does not depend on the order in which commitments arrive: when
/// two members commit, the store, and so the winning hash for any seed, is
/// the same whichever of the two commits first.
pub proof fn lemma_winner_independent_of_order(
    seed: Seq<u8>,
    s: Seq<Participant>,
    p: Participant,
    q: Participant,
)
    requires
        p.account != q.account,
    ensures
        upsert(upsert(s, p), q) == upsert(upsert(s, q), p),
        winner_of(seed, upsert(upsert(s, p), q)) == winner_of(seed, upsert(upsert(s, q), p)),
{
    lemma_upsert_commute(s, p, q);
}

/// Records `p` in the store `v`, replacing the entry of the same account.
pub fn upsert_participant(v: &mut Vec<Participant>, p: Participant)
    requires
        by_account(old(v)@),
    ensures
        final(v)@ == upsert(old(v)@, p),
        by_account(final(v)@),
{
    let mut k: usize = 0;
    while k < v.len() && v[k].account < p.account
        invariant
            k <= v@.len(),
            forall|j: int| 0 <= j < k ==> #[trigger] v@[j].account < p.account,
        decreases v@.len() - k,
    {
        k = k + 1;
    }
    proof {
        lemma_upsert_at(v@, p, k as int);
    }
    if k < v.len() && v[k].account == p.account {
        v.set(k, p);
    } else {
        v.insert(k, p);
    }
}

proof fn lemma_entropy_set_push(s: Seq<Participant>, i: int)
    requires
        0 <= i < s.len(),
    ensures
        entropy_set(s.take(i + 1)) == entropy_set(s.take(i)).insert(s[i].entropy),
{
    let a = s.take(i + 1).map_values(|p: Participant| p.entropy);
    let b = s.take(i).map_values(|p: Participant| p.entropy);
    assert(a =~= b.push(s[i].entropy));
    assert forall|x: EntropyHash| a.to_set().contains(x) <==> b.to_set().insert(s[i].entropy).contains(x) by {
        if a.to_set().contains(x) && x != s[i].entropy {
            let m = choose|m: int| 0 <= m < a.len() && a[m] == x;
            assert(b[m] == x);
        }
        if b.to_set().contains(x) {
            let m = choose|m: int| 0 <= m < b.len() && b[m] == x;
            assert(a[m] == x);
        }
        if x == s[i].entropy {
            assert(a[i] == x);
        }
    }
    assert(a.to_set() =~= b.to_set().insert(s[i].entropy));
}

/// Adds `e` to the ascending list of distinct entropies `v`.
fn insert_entropy(v: &mut Vec<EntropyHash>, e: EntropyHash)
    requires
        lex_sorted(old(v)@),
    ensures
        lex_sorted(final(v)@),
        final(v)@.to_set() == old(v)@.to_set().insert(e),
{
    let mut k: usize = 0;
    while k < v.len() && entropy_lt(&v[k], &e)
        invariant
            k <= v@.len(),
            forall|j: int| 0 <= j < k ==> lex_lt(#[trigger] v@[j]@, e@),
        decreases v@.len() - k,
    {
        k = k + 1;
    }
    if k < v.len() && !entropy_lt(&e, &v[k]) {
        proof {
            let w = v@[k as int];
            if w != e {
                if w@ == e@ {
                    assert forall|i: int| 0 <= i < 32 implies w[i] == e[i] by {
                        assert(w@[i] == e@[i]);
                    }
                    assert(w =~= e);
                }
                lemma_lex_total(w@, e@);
            }
            assert(v@.to_set().contains(e));
            assert(v@.to_set() =~= v@.to_set().insert(e));
        }
        return;
    }
    let ghost old_v = v@;
    proof {
        if k < v@.len() {
            lemma_lex_irreflexive(e@);
        }
        assert forall|j: int| k < j < old_v.len() implies lex_lt(e@, #[trigger] old_v[j]@) by {
            lemma_lex_transitive(e@, old_v[k as int]@, old_v[j]@);
        }
    }
    v.insert(k, e);
    proof {
        let nv = v@;
        assert forall|i: int, j: int| 0 <= i < j < nv.len() implies lex_lt(#[trigger] nv[i]@, #[trigger] nv[j]@) by {
            if i < k && j > k {
                lemma_lex_transitive(nv[i]@, e@, nv[j]@);
            }
        }
        assert forall|x: EntropyHash| nv.to_set().contains(x) <==> old_v.to_set().insert(e).contains(x) by {
            if nv.to_set().contains(x) && x != e {
                let m = choose|m: int| 0 <= m < nv.len() && nv[m] == x;
                if m < k {
                    assert(old_v[m] == x);
                } else {
                    assert(old_v[m - 1] == x);
                }
            }
            if old_v.to_set().contains(x) {
                let m = choose|m: int| 0 <= m < old_v.len() && old_v[m] == x;
                if m < k {
                    assert(nv[m] == x);
                } else {
                    assert(nv[m + 1] == x);
                }
            }
            if x == e {
                assert(nv[k as int] == x);
            }
        }
        assert(nv.to_set() =~= old_v.to_set().insert(e));
    }
}

/// The distinct entropies of the store, in ascending byte order.
pub fn sorted_entropies(s: &Vec<Participant>) -> (r: Vec<EntropyHash>)
    ensures
        r@ == lex_sorted_seq_of(entropy_set(s@)),
{
    let mut r: Vec<EntropyHash> = Vec::new();
    let mut i: usize = 0;
    proof {
        assert(s@.take(0).map_values(|p: Participant| p.entropy) =~= Seq::<EntropyHash>::empty());
        assert(r@.to_set() =~= entropy_set(s@.take(0)));
    }
    while i < s.len()
        invariant
            i <= s@.len(),
            lex_sorted(r@),
            r@.to_set() == entropy_set(s@.take(i as int)),
        decreases s@.len() - i,
    {
        proof {
            lemma_entropy_set_push(s@, i as int);
        }
        insert_entropy(&mut r, s[i].entropy);
        i = i + 1;
    }
    proof {
        assert(s@.take(s@.len() as int) =~= s@);
        let c = lex_sorted_seq_of(entropy_set(s@));
        assert(lex_sorted(c) && c.to_set() == entropy_set(s@));
        lemma_lex_sorted_unique(r@, c);
    }
    r
}

/// The seed followed by the bytes of each entropy of `q`, in order.
fn concat_seed(seed: &Vec<u8>, q: &Vec<EntropyHash>) -> (r: Vec<u8>)
    ensures
        r@ == seed@ + concat_entropies(q@),
{
    let mut r: Vec<u8> = Vec::new();
    let mut i: usize = 0;
    while i < seed.len()
        invariant
            i <= seed@.len(),
            r@ == seed@.take(i as int),
        decreases seed@.len() - i,
    {
        r.push(seed[i]);
        i = i + 1;
        assert(r@ =~= seed@.take(i as int));
    }
    assert(seed@.take(seed@.len() as int) =~= seed@);
    assert(q@.take(0) =~= Seq::<EntropyHash>::empty());
    assert(r@ =~= seed@ + concat_entropies(q@.take(0)));
    let mut j: usize = 0;
    while j < q.len()
        invariant
            j <= q@.len(),
            r@ == seed@ + concat_entropies(q@.take(j as int)),
        decreases q@.len() - j,
    {
        let e = q[j];
        let ghost before = r@;
        let mut b: usize = 0;
        while b < 32
            invariant
                b <= 32,
                e@.len() == 32,
                r@ == before + e@.take(b as int),
            decreases 32 - b,
        {
            r.push(e[b]);
            b = b + 1;
            assert(r@ =~= before + e@.take(b as int));
        }
        assert(e@.take(32) =~= e@);
        assert(q@.take(j + 1).drop_last() =~= q@.take(j as int));
        j = j + 1;
        assert(r@ =~= seed@ + concat_entropies(q@.take(j as int)));
    }
    assert(q@.take(q@.len() as int) =~= q@);
    r
}

/// The masked hash that `digest` selects from the store: the one at
/// position `digest[0] mod len`; `None` for an empty store.
pub fn pick_winner(digest: &[u8; 32], s: &Vec<Participant>) -> (r: Option<KeccakHash>)
    ensures
        r == pick(digest@, s@),
{
    if s.len() == 0 {
        None
    } else {
        let index = (digest[0] as usize) % s.len();
        Some(s[index].hash)
    }
}

/// Selects the winning masked hash of a store of commitments with a seed:
/// the seed and the distinct entropies in ascending byte order are hashed,
/// and the first byte of the digest picks the position.
pub fn select_winner(seed: &Vec<u8>, s: &Vec<Participant>) -> (r: Option<KeccakHash>)
    ensures
        r == winner_of(seed@, s@),
{
    let entropies = sorted_entropies(s);
    let bytes = concat_seed(seed, &entropies);
    let digest = keccak_256(bytes.as_slice());
    pick_winner(&digest, s)
}

} // verus!
