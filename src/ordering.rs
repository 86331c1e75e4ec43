use vstd::prelude::*;

verus! {

/// `order` lists every position of `keys` once, largest key first; equal keys
/// keep their order in the input.
pub open spec fn is_desc_order(keys: Seq<i64>, order: Seq<int>) -> bool {
    &&& order.len() == keys.len()
    &&& forall|k: int| 0 <= k < order.len() ==> 0 <= #[trigger] order[k] < keys.len()
    &&& forall|k: int, l: int| 0 <= k < l < order.len() ==> {
        ||| keys[#[trigger] order[k]] > keys[#[trigger] order[l]]
        ||| (keys[order[k]] == keys[order[l]] && order[k] < order[l])
    }
}

/// `a` comes strictly before `b` in lexicographic order of characters.
pub open spec fn text_before(a: Seq<char>, b: Seq<char>) -> bool
    decreases a.len(),
{
    if a.len() == 0 {
        b.len() > 0
    } else if b.len() == 0 {
        false
    } else if a[0] != b[0] {
        a[0] < b[0]
    } else {
        text_before(a.drop_first(), b.drop_first())
    }
}

/// `order` lists every position of `keys` once, in lexicographic order of
/// the keys; equal keys keep their order in the input.
pub open spec fn is_text_order(keys: Seq<Seq<char>>, order: Seq<int>) -> bool {
    &&& order.len() == keys.len()
    &&& forall|k: int| 0 <= k < order.len() ==> 0 <= #[trigger] order[k] < keys.len()
    &&& forall|k: int, l: int| 0 <= k < l < order.len() ==> {
        ||| text_before(keys[#[trigger] order[k]], keys[#[trigger] order[l]])
        ||| (keys[order[k]] == keys[order[l]] && order[k] < order[l])
    }
}

/// The positions held in a list of indices.
pub open spec fn positions(v: Seq<usize>) -> Seq<int> {
    v.map_values(|i: usize| i as int)
}

/// `a` comes before `b` or equals it in lexicographic order of characters.
pub open spec fn text_le(a: Seq<char>, b: Seq<char>) -> bool {
    text_before(a, b) || a == b
}

/// No text comes before itself.
pub proof fn lemma_text_irreflexive(a: Seq<char>)
    ensures
        !text_before(a, a),
    decreases a.len(),
{
    if a.len() > 0 {
        lemma_text_irreflexive(a.drop_first());
    }
}

/// Of two different texts, one comes before the other, and never both.
pub proof fn lemma_text_total(a: Seq<char>, b: Seq<char>)
    ensures
        a != b ==> text_before(a, b) || text_before(b, a),
        !(text_before(a, b) && text_before(b, a)),
    decreases a.len(),
{
    if a.len() > 0 && b.len() > 0 {
        if a[0] == b[0] {
            lemma_text_total(a.drop_first(), b.drop_first());
            if a.drop_first() == b.drop_first() {
                assert(a =~= seq![a[0]] + a.drop_first());
                assert(b =~= seq![b[0]] + b.drop_first());
            }
        } else {
        }
    } else if a.len() == 0 && b.len() == 0 {
        assert(a =~= b);
    }
}

/// Lexicographic order is transitive.
pub proof fn lemma_text_transitive(a: Seq<char>, b: Seq<char>, c: Seq<char>)
    requires
        text_before(a, b),
        text_before(b, c),
    ensures
        text_before(a, c),
    decreases a.len(),
{
    if a.len() > 0 && b.len() > 0 && c.len() > 0 && a[0] == b[0] && b[0] == c[0] {
        lemma_text_transitive(a.drop_first(), b.drop_first(), c.drop_first());
    }
}

/// Lexicographic order of characters is a strict total order.
pub proof fn lemma_text_order()
    ensures
        forall|a: Seq<char>| !#[trigger] text_before(a, a),
        forall|a: Seq<char>, b: Seq<char>| a != b ==> #[trigger] text_before(a, b) || #[trigger] text_before(b, a),
        forall|a: Seq<char>, b: Seq<char>| #[trigger] text_before(a, b) ==> !text_before(b, a),
        forall|a: Seq<char>, b: Seq<char>, c: Seq<char>|
            #[trigger] text_before(a, b) && #[trigger] text_before(b, c) ==> text_before(a, c),
{
    assert forall|a: Seq<char>| !#[trigger] text_before(a, a) by {
        lemma_text_irreflexive(a);
    }
    assert forall|a: Seq<char>, b: Seq<char>| a != b implies #[trigger] text_before(a, b) || #[trigger] text_before(b, a) by {
        lemma_text_total(a, b);
    }
    assert forall|a: Seq<char>, b: Seq<char>| #[trigger] text_before(a, b) implies !text_before(b, a) by {
        lemma_text_total(a, b);
    }
    assert forall|a: Seq<char>, b: Seq<char>, c: Seq<char>|
        #[trigger] text_before(a, b) && #[trigger] text_before(b, c) implies text_before(a, c) by {
        lemma_text_transitive(a, b, c);
    }
}

/// Relies on `<str as PartialOrd>::lt`: strings compare lexicographically by
/// their UTF-8 bytes, which orders them as their characters do.
#[verifier::external_body]
pub(crate) fn text_less(a: &str, b: &str) -> (r: bool)
    ensures
        r == text_before(a@, b@),
{
    a < b
}

/// The positions of `keys` in lexicographic order of the keys; equal keys
/// keep their order in the input.
pub fn order_by_text(keys: &Vec<String>) -> (r: Vec<usize>)
    ensures
        is_text_order(keys@.map_values(|s: String| s@), positions(r@)),
{
    let ghost ks = keys@.map_values(|s: String| s@);
    proof {
        lemma_text_order();
    }
    let n = keys.len();
    let mut ranked: Vec<usize> = Vec::new();
    let mut i: usize = 0;
    while i < n
        invariant
            n == keys@.len(),
            ks == keys@.map_values(|s: String| s@),
            i <= n,
            ranked@.len() == i,
            forall|k: int| 0 <= k < ranked@.len() ==> (#[trigger] ranked@[k]) < i,
            forall|k: int, l: int| 0 <= k < l < ranked@.len() ==> {
                ||| text_before(ks[(#[trigger] ranked@[k]) as int], ks[(#[trigger] ranked@[l]) as int])
                ||| (ks[ranked@[k] as int] == ks[ranked@[l] as int] && ranked@[k] < ranked@[l])
            },
        decreases n - i,
    {
        let mut p: usize = 0;
        while p < ranked.len() && !text_less(keys[i].as_str(), keys[ranked[p]].as_str())
            invariant
                p <= ranked@.len(),
                n == keys@.len(),
                i < n,
                ks == keys@.map_values(|s: String| s@),
                forall|k: int| 0 <= k < ranked@.len() ==> (#[trigger] ranked@[k]) < i,
                forall|k: int| 0 <= k < p ==> text_le(ks[(#[trigger] ranked@[k]) as int], ks[i as int]),
            decreases ranked@.len() - p,
        {
            proof {
                lemma_text_order();
                let x = ks[ranked@[p as int] as int];
                let y = ks[i as int];
                assert(!text_before(y, x));
                if x != y {
                    assert(text_before(x, y) || text_before(y, x));
                }
            }
            p += 1;
        }
        let ghost old_ranked = ranked@;
        ranked.insert(p, i);
        proof {
            lemma_text_order();
            let rr = ranked@;
            assert(rr == old_ranked.insert(p as int, i));
            assert forall|k: int| 0 <= k < rr.len() implies (#[trigger] rr[k]) < i + 1 by {
                if k < p {
                    assert(rr[k] == old_ranked[k]);
                } else if k > p {
                    assert(rr[k] == old_ranked[k - 1]);
                }
            }
            assert forall|k: int, l: int| 0 <= k < l < rr.len() implies {
                ||| text_before(ks[(#[trigger] rr[k]) as int], ks[(#[trigger] rr[l]) as int])
                ||| (ks[rr[k] as int] == ks[rr[l] as int] && rr[k] < rr[l])
            } by {
                if l < p {
                    assert(rr[k] == old_ranked[k] && rr[l] == old_ranked[l]);
                } else if l == p {
                    assert(rr[k] == old_ranked[k]);
                    assert(text_le(ks[old_ranked[k] as int], ks[i as int]));
                } else if k < p {
                    assert(rr[k] == old_ranked[k] && rr[l] == old_ranked[l - 1]);
                } else if k == p {
                    assert(rr[l] == old_ranked[l - 1]);
                    let x = ks[old_ranked[p as int] as int];
                    assert(text_before(ks[i as int], x));
                    if l - 1 > p {
                        let y = ks[old_ranked[l - 1] as int];
                        assert(text_before(x, y) || x == y);
                    }
                } else {
                    assert(rr[k] == old_ranked[k - 1] && rr[l] == old_ranked[l - 1]);
                }
            }
        }
        i += 1;
    }
    ranked
}

/// The positions of `keys` from the largest key down; equal keys keep their
/// order in the input.
pub fn order_by_key_desc(keys: &Vec<i64>) -> (r: Vec<usize>)
    ensures
        is_desc_order(keys@, positions(r@)),
{
    let n = keys.len();
    let mut ranked: Vec<usize> = Vec::new();
    let mut i: usize = 0;
    while i < n
        invariant
            n == keys@.len(),
            i <= n,
            ranked@.len() == i,
            forall|k: int| 0 <= k < ranked@.len() ==> (#[trigger] ranked@[k]) < i,
            forall|k: int, l: int| 0 <= k < l < ranked@.len() ==> {
                ||| keys@[(#[trigger] ranked@[k]) as int] > keys@[(#[trigger] ranked@[l]) as int]
                ||| (keys@[ranked@[k] as int] == keys@[ranked@[l] as int] && ranked@[k] < ranked@[l])
            },
        decreases n - i,
    {
        let s = keys[i];
        let mut p: usize = 0;
        while p < ranked.len() && keys[ranked[p]] >= s
            invariant
                p <= ranked@.len(),
                n == keys@.len(),
                forall|k: int| 0 <= k < ranked@.len() ==> (#[trigger] ranked@[k]) < n,
                forall|k: int| 0 <= k < p ==> keys@[(#[trigger] ranked@[k]) as int] >= s,
            decreases ranked@.len() - p,
        {
            p += 1;
        }
        let ghost old_ranked = ranked@;
        ranked.insert(p, i);
        proof {
            lemma_text_order();
            let rr = ranked@;
            assert(rr == old_ranked.insert(p as int, i));
            assert forall|k: int| 0 <= k < rr.len() implies (#[trigger] rr[k]) < i + 1 by {
                if k < p {
                    assert(rr[k] == old_ranked[k]);
                } else if k > p {
                    assert(rr[k] == old_ranked[k - 1]);
                }
            }
            assert forall|k: int, l: int| 0 <= k < l < rr.len() implies {
                ||| keys@[(#[trigger] rr[k]) as int] > keys@[(#[trigger] rr[l]) as int]
                ||| (keys@[rr[k] as int] == keys@[rr[l] as int] && rr[k] < rr[l])
            } by {
                if l < p {
                    assert(rr[k] == old_ranked[k] && rr[l] == old_ranked[l]);
                } else if l == p {
                    assert(rr[k] == old_ranked[k]);
                    assert(keys@[old_ranked[k] as int] >= s);
                } else if k < p {
                    assert(rr[k] == old_ranked[k] && rr[l] == old_ranked[l - 1]);
                } else if k == p {
                    assert(rr[l] == old_ranked[l - 1]);
                    assert(keys@[old_ranked[p as int] as int] < s);
                } else {
                    assert(rr[k] == old_ranked[k - 1] && rr[l] == old_ranked[l - 1]);
                }
            }
        }
        i += 1;
    }
    ranked
}

} // verus!
