//! UTF-8 and byte-string helpers shared by the text-facing parts of the
//! library.  Strings are related to the wire format through their UTF-8
//! bytes (`encode_utf8` of the character view).

use vstd::multiset::Multiset;
use vstd::prelude::*;
use vstd::string::StringSliceAdditionalSpecFns;
use vstd::utf8::{
    valid_utf8, encode_utf8, encode_utf8_decode_utf8, partial_valid_utf8,
    partial_valid_utf8_extend_ascii_block,
};

verus! {

/// Relies on `core::str::from_utf8`: it returns `Ok` exactly on valid UTF-8
/// input, and the returned string slice views the very same bytes.
#[verifier::external_body]
pub(crate) fn str_from_utf8(bytes: &[u8]) -> (r: Option<&str>)
    ensures
        r is Some <==> valid_utf8(bytes@),
        r is Some ==> r->0.spec_bytes() == bytes@,
{
    core::str::from_utf8(bytes).ok()
}

/// Every sequence of plain ASCII bytes is valid UTF-8.
pub proof fn lemma_ascii_valid_utf8(bytes: Seq<u8>)
    requires
        forall|i: int| 0 <= i < bytes.len() ==> bytes[i] < 128,
    ensures
        valid_utf8(bytes),
{
    assert(bytes.subrange(0, 0) =~= Seq::<u8>::empty());
    assert(partial_valid_utf8(bytes, 0));
    partial_valid_utf8_extend_ascii_block(bytes, 0, bytes.len() as int);
    assert(bytes.subrange(0, bytes.len() as int) =~= bytes);
}

/// Turns ASCII bytes into an owned string with exactly those bytes.
pub fn ascii_to_string(bytes: &Vec<u8>) -> (s: String)
    requires
        forall|i: int| 0 <= i < bytes@.len() ==> bytes@[i] < 128,
    ensures
        encode_utf8(s@) == bytes@,
{
    proof {
        lemma_ascii_valid_utf8(bytes@);
    }
    match str_from_utf8(bytes.as_slice()) {
        Some(st) => st.to_owned(),
        None => vstd::pervasive::unreached(),
    }
}

/// Byte-for-byte equality of two slices.
pub fn bytes_eq(a: &[u8], b: &[u8]) -> (r: bool)
    ensures
        r == (a@ == b@),
{
    if a.len() != b.len() {
        return false;
    }
    let n = a.len();
    let mut i: usize = 0;
    while i < n
        invariant
            n == a@.len() == b@.len(),
            i <= n,
            forall|j: int| 0 <= j < i ==> a@[j] == b@[j],
        decreases n - i,
    {
        if a[i] != b[i] {
            return false;
        }
        i += 1;
    }
    proof {
        assert(a@ =~= b@);
    }
    true
}

/// Lexicographic order on byte sequences: the usual dictionary order, with
/// a proper prefix before every extension.
pub open spec fn bytes_le(a: Seq<u8>, b: Seq<u8>) -> bool
    decreases a.len(),
{
    if a.len() == 0 {
        true
    } else if b.len() == 0 {
        false
    } else if a[0] < b[0] {
        true
    } else if a[0] > b[0] {
        false
    } else {
        bytes_le(a.drop_first(), b.drop_first())
    }
}

/// The byte order is reflexive.
pub proof fn lemma_bytes_le_refl(a: Seq<u8>)
    ensures
        bytes_le(a, a),
    decreases a.len(),
{
    if a.len() != 0 {
        lemma_bytes_le_refl(a.drop_first());
    }
}

/// The byte order is total.
pub proof fn lemma_bytes_le_total(a: Seq<u8>, b: Seq<u8>)
    ensures
        bytes_le(a, b) || bytes_le(b, a),
    decreases a.len(),
{
    if a.len() != 0 && b.len() != 0 && a[0] == b[0] {
        lemma_bytes_le_total(a.drop_first(), b.drop_first());
    }
}

/// The byte order is transitive.
pub proof fn lemma_bytes_le_trans(a: Seq<u8>, b: Seq<u8>, c: Seq<u8>)
    requires
        bytes_le(a, b),
        bytes_le(b, c),
    ensures
        bytes_le(a, c),
    decreases a.len(),
{
    if a.len() != 0 && b.len() != 0 && c.len() != 0 && a[0] == b[0] && b[0] == c[0] {
        lemma_bytes_le_trans(a.drop_first(), b.drop_first(), c.drop_first());
    }
}

/// Byte-wise lexicographic comparison of two string slices, the order that
/// the standard library gives strings.
pub fn str_le(a: &str, b: &str) -> (r: bool)
    ensures
        r == bytes_le(a.spec_bytes(), b.spec_bytes()),
{
    let ab = a.as_bytes();
    let bb = b.as_bytes();
    let an = ab.len();
    let bn = bb.len();
    let mut i: usize = 0;
    proof {
        assert(ab@.skip(0) =~= ab@);
        assert(bb@.skip(0) =~= bb@);
    }
    loop
        invariant
            ab@ == a.spec_bytes(),
            bb@ == b.spec_bytes(),
            an == ab@.len(),
            bn == bb@.len(),
            i <= an,
            i <= bn,
            forall|j: int| 0 <= j < i ==> ab@[j] == bb@[j],
            bytes_le(ab@, bb@) == bytes_le(ab@.skip(i as int), bb@.skip(i as int)),
        ensures
            bytes_le(ab@, bb@) == if i < an && i < bn {
                ab@[i as int] < bb@[i as int]
            } else {
                i >= an
            },
        decreases an - i,
    {
        if i >= an {
            proof {
                assert(ab@.skip(i as int).len() == 0);
            }
            break;
        }
        if i >= bn {
            proof {
                assert(bb@.skip(i as int).len() == 0 && ab@.skip(i as int).len() > 0);
            }
            break;
        }
        if ab[i] != bb[i] {
            proof {
                let sa = ab@.skip(i as int);
                let sb = bb@.skip(i as int);
                assert(sa[0] == ab@[i as int] && sb[0] == bb@[i as int]);
            }
            break;
        }
        proof {
            let sa = ab@.skip(i as int);
            let sb = bb@.skip(i as int);
            assert(sa[0] == sb[0] && sa.len() > 0 && sb.len() > 0);
            assert(sa.drop_first() =~= ab@.skip(i + 1));
            assert(sb.drop_first() =~= bb@.skip(i + 1));
        }
        i += 1;
    }
    if i < an && i < bn {
        ab[i] < bb[i]
    } else {
        i >= an
    }
}

/// The UTF-8 bytes of each string in turn.
pub open spec fn views_of(v: Seq<&str>) -> Seq<Seq<u8>> {
    v.map_values(|s: &str| s.spec_bytes())
}

/// Sorts string slices into byte-lexicographic order by selection of the
/// least remaining element; the result holds the same strings.
pub fn sorted_strs<'a>(v: Vec<&'a str>) -> (r: Vec<&'a str>)
    ensures
        views_of(r@).to_multiset() == views_of(v@).to_multiset(),
        forall|x: int, y: int|
            0 <= x < y < r@.len() ==> bytes_le(
                #[trigger] r@[x].spec_bytes(),
                #[trigger] r@[y].spec_bytes(),
            ),
{
    broadcast use vstd::seq_lib::group_to_multiset_ensures;

    let mut rest = v;
    let mut out: Vec<&'a str> = Vec::new();
    proof {
        assert(views_of(out@).to_multiset().add(views_of(rest@).to_multiset()) =~= views_of(
            v@,
        ).to_multiset()) by {
            assert(views_of(out@) =~= Seq::<Seq<u8>>::empty());
            assert(views_of(out@).to_multiset() =~= Multiset::<Seq<u8>>::empty());
        }
    }
    while rest.len() > 0
        invariant
            views_of(out@).to_multiset().add(views_of(rest@).to_multiset()) == views_of(
                v@,
            ).to_multiset(),
            forall|x: int, y: int|
                0 <= x < y < out@.len() ==> bytes_le(
                    #[trigger] out@[x].spec_bytes(),
                    #[trigger] out@[y].spec_bytes(),
                ),
            forall|x: int, y: int|
                0 <= x < out@.len() && 0 <= y < rest@.len() ==> bytes_le(
                    #[trigger] out@[x].spec_bytes(),
                    #[trigger] rest@[y].spec_bytes(),
                ),
        decreases rest@.len(),
    {
        let n = rest.len();
        let mut m: usize = 0;
        let mut j: usize = 1;
        proof {
            lemma_bytes_le_refl(rest@[0].spec_bytes());
        }
        while j < n
            invariant
                n == rest@.len(),
                m < j <= n,
                forall|k: int|
                    0 <= k < j ==> bytes_le(
                        rest@[m as int].spec_bytes(),
                        #[trigger] rest@[k].spec_bytes(),
                    ),
            decreases n - j,
        {
            if !str_le(rest[m], rest[j]) {
                proof {
                    lemma_bytes_le_total(rest@[m as int].spec_bytes(), rest@[j as int].spec_bytes());
                    lemma_bytes_le_refl(rest@[j as int].spec_bytes());
                    assert forall|k: int| 0 <= k < j implies bytes_le(
                        rest@[j as int].spec_bytes(),
                        #[trigger] rest@[k].spec_bytes(),
                    ) by {
                        lemma_bytes_le_trans(
                            rest@[j as int].spec_bytes(),
                            rest@[m as int].spec_bytes(),
                            rest@[k].spec_bytes(),
                        );
                    }
                }
                m = j;
            }
            j += 1;
        }
        let ghost old_out = out@;
        let ghost old_rest = rest@;
        let picked = rest.remove(m);
        out.push(picked);
        proof {
            broadcast use vstd::multiset::group_multiset_axioms;

            let pb = picked.spec_bytes();
            let ov = views_of(old_out);
            let rv = views_of(old_rest);
            vstd::seq_lib::to_multiset_build(ov, pb);
            rv.to_multiset_ensures();
            assert(views_of(rest@) =~= rv.remove(m as int));
            assert(views_of(out@) =~= ov.push(pb));
            assert(rv[m as int] == pb);
            assert(views_of(out@).to_multiset() =~= ov.to_multiset().insert(pb));
            assert(views_of(rest@).to_multiset() =~= rv.to_multiset().remove(pb));
            assert(rv.to_multiset().count(pb) >= 1);
            assert(ov.to_multiset().insert(pb).add(rv.to_multiset().remove(pb)) =~= ov.to_multiset(
            ).add(rv.to_multiset()));
        }
    }
    proof {
        assert(views_of(rest@) =~= Seq::<Seq<u8>>::empty());
        assert(views_of(rest@).to_multiset() =~= Multiset::<Seq<u8>>::empty());
        assert(views_of(out@).to_multiset() =~= views_of(v@).to_multiset());
    }
    out
}

/// Equality of two string slices, through their UTF-8 bytes.
pub fn str_eq(a: &str, b: &str) -> (r: bool)
    ensures
        r == (a@ == b@),
{
    let r = bytes_eq(a.as_bytes(), b.as_bytes());
    proof {
        if a.spec_bytes() == b.spec_bytes() {
            encode_utf8_decode_utf8(a@);
            encode_utf8_decode_utf8(b@);
        }
    }
    r
}

} // verus!
