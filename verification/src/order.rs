//! The order of node identifiers: strings compared byte by byte in their
//! UTF-8 form, as `str` orders them.

use vstd::multiset::Multiset;
use vstd::prelude::*;
use vstd::string::StringSliceAdditionalSpecFns;
use vstd::utf8::{decode_utf8, encode_utf8, encode_utf8_decode_utf8};

verus! {

/// Whether `a` comes strictly before `b`, comparing byte by byte; a proper
/// prefix comes before what it is a prefix of.
pub open spec fn bytes_lt(a: Seq<u8>, b: Seq<u8>) -> bool
    decreases a.len(),
{
    if b.len() == 0 {
        false
    } else if a.len() == 0 {
        true
    } else if a[0] != b[0] {
        a[0] < b[0]
    } else {
        bytes_lt(a.drop_first(), b.drop_first())
    }
}

/// Whether the string `a` comes strictly before the string `b`.
pub open spec fn str_lt(a: Seq<char>, b: Seq<char>) -> bool {
    bytes_lt(encode_utf8(a), encode_utf8(b))
}

/// Whether `a` comes before `b` or is `b`.
pub open spec fn str_le(a: Seq<char>, b: Seq<char>) -> bool {
    !str_lt(b, a)
}

/// Whether each string of `s` comes before, or is, each one behind it.
pub open spec fn sorted(s: Seq<Seq<char>>) -> bool {
    forall|i: int, j: int| 0 <= i < j < s.len() ==> str_le(s[i], s[j])
}

/// The strings that a vector of identifiers holds.
pub open spec fn ids_view(v: Seq<String>) -> Seq<Seq<char>> {
    v.map_values(|s: String| s@)
}

proof fn lemma_bytes_lt_irreflexive(a: Seq<u8>)
    ensures
        !bytes_lt(a, a),
    decreases a.len(),
{
    if a.len() > 0 {
        lemma_bytes_lt_irreflexive(a.drop_first());
    }
}

proof fn lemma_bytes_lt_transitive(a: Seq<u8>, b: Seq<u8>, c: Seq<u8>)
    requires
        bytes_lt(a, b),
        bytes_lt(b, c),
    ensures
        bytes_lt(a, c),
    decreases a.len(),
{
    if a.len() > 0 && a[0] == b[0] && b[0] == c[0] {
        lemma_bytes_lt_transitive(a.drop_first(), b.drop_first(), c.drop_first());
    }
}

proof fn lemma_bytes_lt_total(a: Seq<u8>, b: Seq<u8>)
    ensures
        bytes_lt(a, b) || bytes_lt(b, a) || a == b,
    decreases a.len(),
{
    if a.len() > 0 && b.len() > 0 && a[0] == b[0] {
        lemma_bytes_lt_total(a.drop_first(), b.drop_first());
        if a.drop_first() == b.drop_first() {
            assert(a =~= seq![a[0]] + a.drop_first());
            assert(b =~= seq![b[0]] + b.drop_first());
        }
    } else if a.len() == 0 && b.len() == 0 {
        assert(a =~= b);
    }
}

/// No string comes before itself.
pub proof fn lemma_str_lt_irreflexive(a: Seq<char>)
    ensures
        !str_lt(a, a),
{
    lemma_bytes_lt_irreflexive(encode_utf8(a));
}

/// The order is transitive.
pub proof fn lemma_str_lt_transitive(a: Seq<char>, b: Seq<char>, c: Seq<char>)
    requires
        str_lt(a, b),
        str_lt(b, c),
    ensures
        str_lt(a, c),
{
    lemma_bytes_lt_transitive(encode_utf8(a), encode_utf8(b), encode_utf8(c));
}

/// Of two different strings one comes before the other.
pub proof fn lemma_str_lt_total(a: Seq<char>, b: Seq<char>)
    ensures
        str_lt(a, b) || str_lt(b, a) || a == b,
{
    lemma_bytes_lt_total(encode_utf8(a), encode_utf8(b));
    if encode_utf8(a) == encode_utf8(b) {
        encode_utf8_decode_utf8(a);
        encode_utf8_decode_utf8(b);
        assert(decode_utf8(encode_utf8(a)) == decode_utf8(encode_utf8(b)));
    }
}

/// A vector with the same identifiers.
pub fn clone_ids(ids: &Vec<String>) -> (copy: Vec<String>)
    ensures
        copy@ == ids@,
{
    let mut copy: Vec<String> = Vec::new();
    let mut i: usize = 0;
    while i < ids.len()
        invariant
            i <= ids@.len(),
            copy@ == ids@.take(i as int),
        decreases ids@.len() - i,
    {
        copy.push(ids[i].clone());
        proof {
            assert(copy@ =~= ids@.take(i + 1));
        }
        i += 1;
    }
    proof {
        assert(copy@ =~= ids@);
    }
    copy
}

/// Whether `a` comes strictly before `b`.
pub fn lt(a: &String, b: &String) -> (r: bool)
    ensures
        r == str_lt(a@, b@),
{
    let x = a.as_str().as_bytes();
    let y = b.as_str().as_bytes();
    let mut i: usize = 0;
    proof {
        assert(x@.skip(0) =~= x@);
        assert(y@.skip(0) =~= y@);
    }
    while i < x.len() && i < y.len()
        invariant
            i <= x@.len(),
            i <= y@.len(),
            x@ == encode_utf8(a@),
            y@ == encode_utf8(b@),
            bytes_lt(x@, y@) == bytes_lt(x@.skip(i as int), y@.skip(i as int)),
        decreases x@.len() - i,
    {
        proof {
            assert(x@.skip(i as int).drop_first() =~= x@.skip(i + 1));
            assert(y@.skip(i as int).drop_first() =~= y@.skip(i + 1));
        }
        if x[i] != y[i] {
            return x[i] < y[i];
        }
        i += 1;
    }
    i < y.len()
}

/// Sorts the identifiers in ascending order.
pub fn sort(ids: &mut Vec<String>)
    ensures
        sorted(ids_view(final(ids)@)),
        ids_view(final(ids)@).to_multiset() == ids_view(old(ids)@).to_multiset(),
{
    let mut rest: Vec<String> = Vec::new();
    std::mem::swap(ids, &mut rest);
    let mut out: Vec<String> = Vec::new();
    proof {
        assert(ids_view(out@) =~= Seq::empty());
        assert(ids_view(out@).to_multiset() =~= Multiset::empty()) by {
            broadcast use vstd::seq_lib::group_to_multiset_ensures;
        }
        assert(ids_view(out@).to_multiset().add(ids_view(rest@).to_multiset()) =~= ids_view(
            old(ids)@,
        ).to_multiset());
    }
    while rest.len() > 0
        invariant
            sorted(ids_view(out@)),
            ids_view(out@).to_multiset().add(ids_view(rest@).to_multiset()) == ids_view(
                old(ids)@,
            ).to_multiset(),
        decreases rest@.len(),
    {
        let ghost rest_before = ids_view(rest@);
        let ghost out_before = ids_view(out@);
        let s = rest.pop().unwrap();
        let mut p: usize = 0;
        while p < out.len()
            invariant
                p <= out@.len(),
                forall|j: int| 0 <= j < p ==> str_le(#[trigger] ids_view(out@)[j], s@),
            ensures
                p <= out@.len(),
                forall|j: int| 0 <= j < p ==> str_le(#[trigger] ids_view(out@)[j], s@),
                p < out@.len() ==> str_lt(s@, ids_view(out@)[p as int]),
            decreases out@.len() - p,
        {
            if lt(&s, &out[p]) {
                break;
            }
            p += 1;
        }
        out.insert(p, s);
        proof {
            let now = ids_view(out@);
            assert(now =~= out_before.insert(p as int, s@));
            assert(ids_view(rest@) =~= rest_before.drop_last());
            assert(rest_before =~= ids_view(rest@).push(s@));
            vstd::seq_lib::to_multiset_insert(out_before, p as int, s@);
            vstd::seq_lib::to_multiset_build(ids_view(rest@), s@);
            assert(now.to_multiset().add(ids_view(rest@).to_multiset()) =~= out_before.to_multiset().add(
                rest_before.to_multiset(),
            ));
            assert forall|i: int, j: int| 0 <= i < j < now.len() implies str_le(now[i], now[j]) by {
                if j == p {
                    assert(now[i] == out_before[i]);
                    assert(now[j] == s@);
                    assert(str_le(out_before[i], s@));
                } else if i == p {
                    assert(now[i] == s@);
                    assert(now[j] == out_before[j - 1]);
                    if str_lt(out_before[j - 1], s@) {
                        lemma_str_lt_transitive(out_before[j - 1], s@, out_before[p as int]);
                        lemma_str_lt_irreflexive(out_before[p as int]);
                        if j - 1 > p {
                            assert(str_le(out_before[p as int], out_before[j - 1]));
                        }
                    }
                } else {
                    let i0 = if i < p { i } else { i - 1 };
                    let j0 = if j < p { j } else { j - 1 };
                    assert(now[i] == out_before[i0] && now[j] == out_before[j0]);
                    assert(str_le(out_before[i0], out_before[j0]));
                }
            }
        }
    }
    proof {
        assert(ids_view(rest@) =~= Seq::empty());
        assert(ids_view(rest@).to_multiset() =~= Multiset::empty()) by {
            broadcast use vstd::seq_lib::group_to_multiset_ensures;
        }
        assert(ids_view(out@).to_multiset().add(Multiset::empty()) =~= ids_view(out@).to_multiset());
    }
    *ids = out;
}

} // verus!
