//! Ordering of collection ids: the distinct ids of the stored segments are
//! listed in lexicographic order of their UTF-8 bytes, the order `str`
//! comparison gives.

use vstd::prelude::*;
use vstd::string::StringSliceAdditionalSpecFns;

verus! {

/// Strict lexicographic order on byte strings.
pub open spec fn lex_lt(a: Seq<u8>, b: Seq<u8>) -> bool
    decreases a.len(),
{
    if b.len() == 0 {
        false
    } else if a.len() == 0 {
        true
    } else if a[0] < b[0] {
        true
    } else if a[0] > b[0] {
        false
    } else {
        lex_lt(a.drop_first(), b.drop_first())
    }
}

/// Strict order on collection ids: lexicographic on their UTF-8 encodings.
pub open spec fn id_lt(a: Seq<char>, b: Seq<char>) -> bool {
    lex_lt(vstd::utf8::encode_utf8(a), vstd::utf8::encode_utf8(b))
}

/// The views of a sequence of strings, element-wise.
pub open spec fn views_of(v: Seq<String>) -> Seq<Seq<char>> {
    v.map_values(|s: String| s@)
}

/// Ascending and duplicate-free under `id_lt`.
pub open spec fn sorted_ids(v: Seq<Seq<char>>) -> bool {
    forall|i: int, j: int| 0 <= i < j < v.len() ==> !id_lt(v[j], v[i])
}

pub proof fn lemma_lex_lt_trans(a: Seq<u8>, b: Seq<u8>, c: Seq<u8>)
    requires
        lex_lt(a, b),
        lex_lt(b, c),
    ensures
        lex_lt(a, c),
    decreases a.len(),
{
    if a.len() > 0 {
        if a[0] == b[0] && b[0] == c[0] {
            lemma_lex_lt_trans(a.drop_first(), b.drop_first(), c.drop_first());
        }
    }
}

/// Compares two strings in the lexicographic order of their UTF-8 bytes.
pub fn str_lt(a: &str, b: &str) -> (r: bool)
    ensures
        r == id_lt(a@, b@),
{
    let ab = a.as_bytes();
    let bb = b.as_bytes();
    let an = ab.len();
    let bn = bb.len();
    let mut i: usize = 0;
    proof {
        assert(ab@.skip(0) =~= ab@);
        assert(bb@.skip(0) =~= bb@);
    }
    while i < an && i < bn
        invariant
            i <= an,
            i <= bn,
            an == ab@.len(),
            bn == bb@.len(),
            ab@ == a.spec_bytes(),
            bb@ == b.spec_bytes(),
            lex_lt(a.spec_bytes(), b.spec_bytes()) == lex_lt(
                ab@.skip(i as int),
                bb@.skip(i as int),
            ),
        decreases an - i,
    {
        let x = ab[i];
        let y = bb[i];
        proof {
            assert(ab@.skip(i as int)[0] == ab@[i as int]);
            assert(bb@.skip(i as int)[0] == bb@[i as int]);
            assert(ab@.skip(i as int).drop_first() =~= ab@.skip(i + 1));
            assert(bb@.skip(i as int).drop_first() =~= bb@.skip(i + 1));
        }
        if x < y {
            return true;
        }
        if x > y {
            return false;
        }
        i = i + 1;
    }
    proof {
        assert(ab@.skip(i as int).len() == an - i);
        assert(bb@.skip(i as int).len() == bn - i);
    }
    i < bn
}

/// Pairwise-distinct views.
pub open spec fn distinct_views(v: Seq<Seq<char>>) -> bool {
    forall|i: int, j: int| 0 <= i < j < v.len() ==> v[i] != v[j]
}

pub proof fn lemma_lex_lt_irrefl(a: Seq<u8>)
    ensures
        !lex_lt(a, a),
    decreases a.len(),
{
    if a.len() > 0 {
        lemma_lex_lt_irrefl(a.drop_first());
    }
}

/// Is the view of `v` among the views of `ids`?
pub fn vec_has_id(ids: &Vec<String>, v: &String) -> (b: bool)
    ensures
        b == views_of(ids@).contains(v@),
{
    let n = ids.len();
    for j in 0..n
        invariant
            n == ids@.len(),
            forall|k: int| 0 <= k < j ==> ids@[k]@ != v@,
    {
        if ids[j] == *v {
            proof {
                assert(views_of(ids@)[j as int] == v@);
            }
            return true;
        }
    }
    proof {
        assert forall|k: int| 0 <= k < views_of(ids@).len() implies views_of(ids@)[k] != v@ by {
            assert(views_of(ids@)[k] == ids@[k]@);
        }
    }
    false
}

/// The position at which `x` belongs in the sorted `out`: before the first
/// entry it precedes.
fn insert_pos(out: &Vec<String>, x: &String) -> (p: usize)
    ensures
        p <= out@.len(),
        forall|k: int| 0 <= k < p ==> !id_lt(x@, out@[k]@),
        p < out@.len() ==> id_lt(x@, out@[p as int]@),
{
    let n = out.len();
    for p in 0..n
        invariant
            n == out@.len(),
            forall|k: int| 0 <= k < p ==> !id_lt(x@, out@[k]@),
    {
        if str_lt(x, &out[p]) {
            return p;
        }
    }
    n
}

/// Inserts a new id into a sorted, duplicate-free list, keeping it so.
pub fn insert_id_sorted(out: Vec<String>, x: String) -> (r: Vec<String>)
    requires
        sorted_ids(views_of(out@)),
        distinct_views(views_of(out@)),
        !views_of(out@).contains(x@),
    ensures
        sorted_ids(views_of(r@)),
        distinct_views(views_of(r@)),
        r@.len() == out@.len() + 1,
        forall|v: Seq<char>|
            views_of(r@).contains(v) == (views_of(out@).contains(v) || v == x@),
{
    let ghost ov = views_of(out@);
    let ghost xv = x@;
    let p = insert_pos(&out, &x);
    let mut r = out;
    r.insert(p, x);
    proof {
        let nv = views_of(r@);
        assert(nv =~= ov.insert(p as int, xv)) by {
            assert forall|k: int| 0 <= k < nv.len() implies nv[k] == ov.insert(p as int, xv)[k] by {
                assert(nv[k] == r@[k]@);
                if k < p {
                    assert(r@[k] == out@[k]);
                } else if k > p {
                    assert(r@[k] == out@[k - 1]);
                }
            }
        }
        assert forall|a: int, b: int| 0 <= a < b < nv.len() implies !id_lt(nv[b], nv[a]) by {
            if b < p {
            } else if a < p && b == p {
                assert(nv[a] == ov[a] && nv[b] == xv);
            } else if a < p && b > p {
                assert(nv[a] == ov[a] && nv[b] == ov[b - 1]);
            } else if a == p && b > p {
                assert(nv[a] == xv && nv[b] == ov[b - 1]);
                if id_lt(ov[b - 1], xv) {
                    assert((p as int) < ov.len());
                    assert(id_lt(xv, ov[p as int]));
                    lemma_lex_lt_trans(
                        vstd::utf8::encode_utf8(ov[b - 1]),
                        vstd::utf8::encode_utf8(xv),
                        vstd::utf8::encode_utf8(ov[p as int]),
                    );
                    if p == b - 1 {
                        lemma_lex_lt_irrefl(vstd::utf8::encode_utf8(ov[p as int]));
                    } else {
                        assert(!id_lt(ov[b - 1], ov[p as int]));
                    }
                }
            } else {
                assert(nv[a] == ov[a - 1] && nv[b] == ov[b - 1]);
            }
        }
        assert forall|a: int, b: int| 0 <= a < b < nv.len() implies nv[a] != nv[b] by {
            if b < p {
            } else if a < p && b == p {
                assert(ov.contains(ov[a]));
            } else if a == p && b > p {
                assert(ov.contains(ov[b - 1]));
            } else if a < p && b > p {
                assert(nv[a] == ov[a] && nv[b] == ov[b - 1]);
            } else {
                assert(nv[a] == ov[a - 1] && nv[b] == ov[b - 1]);
            }
        }
        assert forall|v: Seq<char>|
            views_of(r@).contains(v) == (ov.contains(v) || v == xv) by {
            if ov.contains(v) {
                let k = choose|k: int| 0 <= k < ov.len() && ov[k] == v;
                if k < p {
                    assert(nv[k] == v);
                } else {
                    assert(nv[k + 1] == v);
                }
            }
            if v == xv {
                assert(nv[p as int] == v);
            }
            if nv.contains(v) {
                let k = choose|k: int| 0 <= k < nv.len() && nv[k] == v;
                if k < p {
                    assert(ov[k] == v);
                } else if k > p {
                    assert(ov[k - 1] == v);
                }
            }
        }
    }
    r
}

} // verus!
