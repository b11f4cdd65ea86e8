//! Lexicographic ordering of strings by character code, a verified sort on
//! string vectors, and the multiset facts the membership hash rests on.

use vstd::prelude::*;
use vstd::relations::{sorted_by, total_ordering};
use vstd::string::*;

verus! {

/// Lexicographic order on character sequences, by code point.
pub open spec fn lex_le(a: Seq<char>, b: Seq<char>) -> bool
    decreases a.len(),
{
    if a.len() == 0 {
        true
    } else if b.len() == 0 {
        false
    } else if (a[0] as u32) < (b[0] as u32) {
        true
    } else if (a[0] as u32) > (b[0] as u32) {
        false
    } else {
        lex_le(a.drop_first(), b.drop_first())
    }
}

/// The order as a relation value, as the sorting lemmas want it.
pub open spec fn lex_leq() -> spec_fn(Seq<char>, Seq<char>) -> bool {
    |a: Seq<char>, b: Seq<char>| lex_le(a, b)
}

pub proof fn lemma_lex_refl(a: Seq<char>)
    ensures
        lex_le(a, a),
    decreases a.len(),
{
    if a.len() > 0 {
        lemma_lex_refl(a.drop_first());
    }
}

pub proof fn lemma_lex_total(a: Seq<char>, b: Seq<char>)
    ensures
        lex_le(a, b) || lex_le(b, a),
    decreases a.len(),
{
    if a.len() > 0 && b.len() > 0 && (a[0] as u32) == (b[0] as u32) {
        lemma_lex_total(a.drop_first(), b.drop_first());
    }
}

pub proof fn lemma_lex_antisym(a: Seq<char>, b: Seq<char>)
    requires
        lex_le(a, b),
        lex_le(b, a),
    ensures
        a == b,
    decreases a.len(),
{
    if a.len() == 0 {
        assert(b.len() == 0);
        assert(a =~= b);
    } else {
        assert(!((a[0] as u32) < (b[0] as u32)) && !((a[0] as u32) > (b[0] as u32)));
        assert((a[0] as u32) == (b[0] as u32));
        vstd::utf8::char_u32_cast(a[0], a[0] as u32);
        vstd::utf8::char_u32_cast(b[0], b[0] as u32);
        assert(a[0] == b[0]);
        lemma_lex_antisym(a.drop_first(), b.drop_first());
        assert(a =~= b) by {
            assert(a.len() == b.len());
            assert forall|t: int| 0 <= t < a.len() implies a[t] == b[t] by {
                if t > 0 {
                    assert(a.drop_first()[t - 1] == a[t]);
                    assert(b.drop_first()[t - 1] == b[t]);
                }
            }
        }
    }
}

pub proof fn lemma_lex_trans(a: Seq<char>, b: Seq<char>, c: Seq<char>)
    requires
        lex_le(a, b),
        lex_le(b, c),
    ensures
        lex_le(a, c),
    decreases a.len(),
{
    if a.len() > 0 && b.len() > 0 && c.len() > 0 && (a[0] as u32) == (b[0] as u32) && (b[0]
        as u32) == (c[0] as u32) {
        lemma_lex_trans(a.drop_first(), b.drop_first(), c.drop_first());
    }
}

/// Lexicographic order is a total order, as the sorting lemmas require.
pub proof fn lemma_lex_total_ordering()
    ensures
        total_ordering(lex_leq()),
{
    let r = lex_leq();
    assert forall|a: Seq<char>| #[trigger] r(a, a) by {
        lemma_lex_refl(a);
    }
    assert forall|a: Seq<char>, b: Seq<char>| #[trigger] r(a, b) && #[trigger] r(b, a)
        implies a == b by {
        lemma_lex_antisym(a, b);
    }
    assert forall|a: Seq<char>, b: Seq<char>, c: Seq<char>|
        #[trigger] r(a, b) && #[trigger] r(b, c) implies r(a, c) by {
        lemma_lex_trans(a, b, c);
    }
    assert forall|a: Seq<char>, b: Seq<char>| #[trigger] r(a, b) || #[trigger] r(b, a) by {
        lemma_lex_total(a, b);
    }
}

fn str_lex_le_from(a: &str, b: &str, i: usize) -> (r: bool)
    requires
        i <= a@.len(),
        i <= b@.len(),
    ensures
        r == lex_le(a@.skip(i as int), b@.skip(i as int)),
    decreases a@.len() - i,
{
    if i == a.unicode_len() {
        proof {
            assert(a@.skip(i as int) =~= Seq::<char>::empty());
        }
        true
    } else if i == b.unicode_len() {
        proof {
            assert(b@.skip(i as int) =~= Seq::<char>::empty());
            assert(a@.skip(i as int).len() > 0);
        }
        false
    } else {
        let ca = a.get_char(i) as u32;
        let cb = b.get_char(i) as u32;
        proof {
            assert(a@.skip(i as int)[0] == a@[i as int]);
            assert(b@.skip(i as int)[0] == b@[i as int]);
            assert(a@.skip(i as int).drop_first() =~= a@.skip(i as int + 1));
            assert(b@.skip(i as int).drop_first() =~= b@.skip(i as int + 1));
        }
        if ca < cb {
            true
        } else if ca > cb {
            false
        } else {
            str_lex_le_from(a, b, i + 1)
        }
    }
}

/// Compares two strings in lexicographic character order.
pub fn str_lex_le(a: &str, b: &str) -> (r: bool)
    ensures
        r == lex_le(a@, b@),
{
    proof {
        assert(a@.skip(0) =~= a@);
        assert(b@.skip(0) =~= b@);
    }
    str_lex_le_from(a, b, 0)
}

/// The views of a string vector.
pub open spec fn views(v: Seq<String>) -> Seq<Seq<char>> {
    v.map_values(|s: String| s@)
}

fn insert_sorted(out: &mut Vec<String>, s: String)
    requires
        sorted_by(views(old(out)@), lex_leq()),
    ensures
        sorted_by(views(final(out)@), lex_leq()),
        views(final(out)@).to_multiset() == views(old(out)@).to_multiset().insert(s@),
{
    let ghost dv0 = views(out@);
    let ghost sv = s@;
    let mut k: usize = 0;
    loop
        invariant_except_break
            k <= out.len(),
            views(out@) == dv0,
            out@.len() == dv0.len(),
            sv == s@,
            forall|t: int| 0 <= t < k ==> lex_le(#[trigger] dv0[t], sv),
        ensures
            k <= out.len(),
            views(out@) == dv0,
            out@.len() == dv0.len(),
            sv == s@,
            forall|t: int| 0 <= t < k ==> lex_le(#[trigger] dv0[t], sv),
            k == out.len() || !lex_le(dv0[k as int], sv),
        decreases out.len() - k,
    {
        if k == out.len() {
            break;
        }
        let le = str_lex_le(out[k].as_str(), s.as_str());
        proof {
            assert(dv0[k as int] == views(out@)[k as int]);
            assert(views(out@)[k as int] == out@[k as int]@);
        }
        if !le {
            break;
        }
        k += 1;
    }
    let ghost ov = out@;
    out.insert(k, s);
    proof {
        let ki = k as int;
        let dv1 = views(out@);
        assert(dv1 =~= dv0.insert(ki, sv)) by {
            assert forall|t: int| 0 <= t < dv1.len() implies dv1[t] == dv0.insert(ki, sv)[t] by {
                assert(dv1[t] == views(out@)[t]);
                assert(views(out@)[t] == out@[t]@);
                if t < ki {
                    assert(out@[t] == ov[t]);
                    assert(dv0[t] == views(ov)[t]);
                    assert(views(ov)[t] == ov[t]@);
                    assert(dv0.insert(ki, sv)[t] == dv0[t]);
                } else if t == ki {
                    assert(out@[t] == s);
                    assert(dv0.insert(ki, sv)[t] == sv);
                } else {
                    assert(out@[t] == ov[t - 1]);
                    assert(dv0[t - 1] == views(ov)[t - 1]);
                    assert(views(ov)[t - 1] == ov[t - 1]@);
                    assert(dv0.insert(ki, sv)[t] == dv0[t - 1]);
                }
            }
        }
        if ki < dv0.len() {
            lemma_lex_total(dv0[ki], sv);
            assert(lex_le(sv, dv0[ki]));
        }
        assert forall|x: int, y: int| 0 <= x < y < dv1.len() implies #[trigger] lex_leq()(
            dv1[x],
            dv1[y],
        ) by {
            if y < ki {
                assert(lex_leq()(dv0[x], dv0[y]));
            } else if x >= ki + 1 {
                assert(lex_leq()(dv0[x - 1], dv0[y - 1]));
            } else if y == ki {
                assert(dv1[y] == sv);
                assert(lex_le(dv0[x], sv));
            } else if x == ki {
                assert(dv1[x] == sv);
                assert(dv1[y] == dv0[y - 1]);
                assert(lex_le(sv, dv0[ki]));
                if y - 1 > ki {
                    assert(lex_leq()(dv0[ki], dv0[y - 1]));
                    lemma_lex_trans(sv, dv0[ki], dv0[y - 1]);
                } else {
                    assert(y - 1 == ki);
                }
            } else {
                // x < ki < y
                assert(dv1[x] == dv0[x]);
                assert(dv1[y] == dv0[y - 1]);
                if y - 1 == x {
                    assert(lex_le(dv0[x], sv));
                    assert(lex_le(sv, dv0[ki]));
                    assert(y - 1 == ki || x < ki);
                    lemma_lex_trans(dv0[x], sv, dv0[ki]);
                    assert(y - 1 == ki);
                } else {
                    assert(lex_leq()(dv0[x], dv0[y - 1]));
                }
            }
        }
        assert(dv0.insert(ki, sv).to_multiset() == dv0.to_multiset().insert(sv)) by {
            vstd::seq_lib::to_multiset_insert(dv0, ki, sv);
        }
        assert(dv1.to_multiset() == dv0.to_multiset().insert(sv));
    }
}

/// Sorts a vector of strings by lexicographic character order. The result is
/// sorted and holds the same strings, multiplicity included.
pub fn sort_strings(v: &Vec<String>) -> (r: Vec<String>)
    ensures
        sorted_by(views(r@), lex_leq()),
        views(r@).to_multiset() == views(v@).to_multiset(),
{
    broadcast use vstd::seq_lib::group_to_multiset_ensures;

    let mut out: Vec<String> = Vec::new();
    proof {
        assert(views(out@) =~= Seq::<Seq<char>>::empty());
    }
    let mut i: usize = 0;
    while i < v.len()
        invariant
            i <= v.len(),
            sorted_by(views(out@), lex_leq()),
            views(out@).to_multiset() == views(v@.take(i as int)).to_multiset(),
        decreases v.len() - i,
    {
        let s = v[i].clone();
        proof {
            assert(s@ == v@[i as int]@);
        }
        insert_sorted(&mut out, s);
        proof {
            let tk = views(v@.take(i as int));
            let tk1 = views(v@.take(i as int + 1));
            assert(tk1 =~= tk.push(v@[i as int]@)) by {
                assert forall|t: int| 0 <= t < tk1.len() implies tk1[t] == tk.push(
                    v@[i as int]@,
                )[t] by {
                    assert(tk1[t] == v@.take(i as int + 1)[t]@);
                    if t < i as int {
                        assert(v@.take(i as int + 1)[t] == v@[t]);
                        assert(v@.take(i as int)[t] == v@[t]);
                        assert(tk[t] == v@.take(i as int)[t]@);
                    } else {
                        assert(v@.take(i as int + 1)[t] == v@[i as int]);
                    }
                }
            }
            assert(tk.push(v@[i as int]@).to_multiset() == tk.to_multiset().insert(
                v@[i as int]@,
            )) by {
                vstd::seq_lib::to_multiset_build(tk, v@[i as int]@);
            }
            assert(tk1.to_multiset() == views(out@).to_multiset());
        }
        i += 1;
    }
    proof {
        assert(views(v@.take(v@.len() as int)) =~= views(v@));
    }
    out
}

/// Sequences with equal multisets keep equal multisets under mapping.
pub proof fn lemma_map_multiset<A, B>(s1: Seq<A>, s2: Seq<A>, f: spec_fn(A) -> B)
    requires
        s1.to_multiset() == s2.to_multiset(),
    ensures
        s1.map_values(f).to_multiset() == s2.map_values(f).to_multiset(),
    decreases s1.len(),
{
    broadcast use vstd::seq_lib::group_to_multiset_ensures;
    broadcast use vstd::multiset::group_multiset_axioms;

    if s1.len() == 0 {
        assert(s1.to_multiset().len() == 0);
        assert(s2.to_multiset().len() == 0);
        assert(s2.len() == 0);
        assert(s1.map_values(f) =~= s2.map_values(f));
    } else {
        let a = s1[0];
        assert(s1.to_multiset().count(a) > 0) by {
            assert(s1.contains(a));
        }
        assert(s2.to_multiset().count(a) > 0);
        assert(s2.contains(a));
        let i = choose|i: int| 0 <= i < s2.len() && s2[i] == a;
        let s1t = s1.drop_first();
        let s2r = s2.remove(i);
        assert(s1.remove(0) =~= s1t);
        vstd::seq_lib::to_multiset_remove(s1, 0);
        assert(s1t.to_multiset() == s1.to_multiset().remove(a));
        vstd::seq_lib::to_multiset_remove(s2, i);
        assert(s2r.to_multiset() == s2.to_multiset().remove(a));
        assert(s1t.to_multiset() == s2r.to_multiset());
        lemma_map_multiset(s1t, s2r, f);
        let m1 = s1.map_values(f);
        let m2 = s2.map_values(f);
        let m1t = s1t.map_values(f);
        let m2r = s2r.map_values(f);
        assert(m1.remove(0) =~= m1t);
        assert(m2.remove(i) =~= m2r);
        vstd::seq_lib::to_multiset_remove(m1, 0);
        vstd::seq_lib::to_multiset_remove(m2, i);
        assert(m1[0] == f(a));
        assert(m2[i] == f(a));
        assert(m1.to_multiset().count(f(a)) > 0) by {
            assert(m1.contains(f(a)));
        }
        assert(m2.to_multiset().count(f(a)) > 0) by {
            assert(m2.contains(f(a)));
        }
        assert(m1.to_multiset() =~= m1t.to_multiset().insert(f(a)));
        assert(m2.to_multiset() =~= m2r.to_multiset().insert(f(a)));
        assert(m1.to_multiset() == m2.to_multiset());
    }
}

} // verus!
