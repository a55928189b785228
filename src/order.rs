//! The order of a directory's children: directories first, then by name
//! compared case-insensitively, as the bytes of the lowercased names.

use vstd::prelude::*;

verus! {

/// What `str::to_lowercase` makes of a sequence of characters.
pub uninterp spec fn lower_of(s: Seq<char>) -> Seq<char>;

/// Relies on `str::to_lowercase`: its result depends on the characters alone.
#[verifier::external_body]
pub(crate) fn lowercase(s: &str) -> (r: String)
    ensures
        r@ == lower_of(s@),
{
    s.to_lowercase()
}

/// Strict lexicographic order on byte strings, the order of `str`'s `Ord`.
pub open spec fn bytes_lt(a: Seq<u8>, b: Seq<u8>) -> bool
    decreases a.len(),
{
    if a.len() == 0 {
        b.len() > 0
    } else if b.len() == 0 {
        false
    } else if a[0] != b[0] {
        a[0] < b[0]
    } else {
        bytes_lt(a.drop_first(), b.drop_first())
    }
}

/// The sort key of a name: the UTF-8 bytes of its lowercase form.
pub open spec fn name_key(name: Seq<char>) -> Seq<u8> {
    vstd::utf8::encode_utf8(lower_of(name))
}

/// Whether an entry `(a_dir, a_name)` sorts strictly before `(b_dir, b_name)`.
pub open spec fn key_before(a_dir: bool, a_name: Seq<char>, b_dir: bool, b_name: Seq<char>) -> bool {
    (a_dir && !b_dir) || (a_dir == b_dir && bytes_lt(name_key(a_name), name_key(b_name)))
}

pub proof fn lemma_bytes_lt_irreflexive(a: Seq<u8>)
    ensures
        !bytes_lt(a, a),
    decreases a.len(),
{
    if a.len() > 0 {
        lemma_bytes_lt_irreflexive(a.drop_first());
    }
}

pub proof fn lemma_bytes_lt_transitive(a: Seq<u8>, b: Seq<u8>, c: Seq<u8>)
    requires
        bytes_lt(a, b),
        bytes_lt(b, c),
    ensures
        bytes_lt(a, c),
    decreases a.len(),
{
    if a.len() > 0 && b.len() > 0 && c.len() > 0 && a[0] == b[0] && b[0] == c[0] {
        lemma_bytes_lt_transitive(a.drop_first(), b.drop_first(), c.drop_first());
    }
}

pub proof fn lemma_bytes_lt_total(a: Seq<u8>, b: Seq<u8>)
    requires
        a != b,
    ensures
        bytes_lt(a, b) || bytes_lt(b, a),
    decreases a.len(),
{
    if a.len() == 0 && b.len() == 0 {
        assert(a =~= b);
    } else if a.len() > 0 && b.len() > 0 && a[0] == b[0] {
        if a.drop_first() == b.drop_first() {
            assert(a =~= seq![a[0]] + a.drop_first());
            assert(b =~= seq![b[0]] + b.drop_first());
        } else {
            lemma_bytes_lt_total(a.drop_first(), b.drop_first());
        }
    }
}

/// Strictly before is asymmetric.
pub proof fn lemma_key_before_asymmetric(ad: bool, an: Seq<char>, bd: bool, bn: Seq<char>)
    requires
        key_before(ad, an, bd, bn),
    ensures
        !key_before(bd, bn, ad, an),
{
    if ad == bd && bytes_lt(name_key(an), name_key(bn)) && bytes_lt(name_key(bn), name_key(an)) {
        lemma_bytes_lt_transitive(name_key(an), name_key(bn), name_key(an));
        lemma_bytes_lt_irreflexive(name_key(an));
    }
}

/// Not sorting strictly before is transitive: the order is a total preorder.
pub proof fn lemma_not_before_transitive(
    ad: bool,
    an: Seq<char>,
    bd: bool,
    bn: Seq<char>,
    cd: bool,
    cn: Seq<char>,
)
    requires
        !key_before(bd, bn, ad, an),
        !key_before(cd, cn, bd, bn),
    ensures
        !key_before(cd, cn, ad, an),
{
    let (ak, bk, ck) = (name_key(an), name_key(bn), name_key(cn));
    if ad == bd && bd == cd && bytes_lt(ck, ak) {
        if ak != bk {
            lemma_bytes_lt_total(ak, bk);
            lemma_bytes_lt_transitive(ck, ak, bk);
        }
    }
}

/// Whether `a` is strictly less than `b` as byte strings.
pub fn bytes_less(a: &[u8], b: &[u8]) -> (r: bool)
    ensures
        r == bytes_lt(a@, b@),
{
    let mut i: usize = 0;
    proof {
        assert(a@.skip(0) =~= a@);
        assert(b@.skip(0) =~= b@);
    }
    while i < a.len() && i < b.len() && a[i] == b[i]
        invariant
            i <= a@.len(),
            i <= b@.len(),
            a@.take(i as int) == b@.take(i as int),
            bytes_lt(a@, b@) == bytes_lt(a@.skip(i as int), b@.skip(i as int)),
        decreases a@.len() - i,
    {
        proof {
            let (sa, sb) = (a@.skip(i as int), b@.skip(i as int));
            assert(sa.drop_first() =~= a@.skip(i + 1));
            assert(sb.drop_first() =~= b@.skip(i + 1));
            assert(a@.take(i + 1) =~= a@.take(i as int).push(a@[i as int]));
            assert(b@.take(i + 1) =~= b@.take(i as int).push(b@[i as int]));
        }
        i = i + 1;
    }
    if i == a.len() {
        i < b.len()
    } else if i == b.len() {
        false
    } else {
        a[i] < b[i]
    }
}

/// Whether an entry `(a_dir, a_key)` sorts strictly before `(b_dir, b_key)`,
/// where each key is the lowercase form of the entry's name.
pub fn precedes(a_dir: bool, a_key: &String, b_dir: bool, b_key: &String) -> (r: bool)
    ensures
        r == ((a_dir && !b_dir) || (a_dir == b_dir && bytes_lt(
            vstd::utf8::encode_utf8(a_key@),
            vstd::utf8::encode_utf8(b_key@),
        ))),
{
    if a_dir != b_dir {
        a_dir
    } else {
        bytes_less(a_key.as_str().as_bytes(), b_key.as_str().as_bytes())
    }
}

} // verus!
