use vstd::prelude::*;

verus! {

/// Lexicographic order on keys, character by character by code point. This is
/// the order of UTF-8 strings compared bytewise.
pub open spec fn key_lt(a: Seq<char>, b: Seq<char>) -> bool
    decreases a.len(),
{
    if a.len() == 0 {
        b.len() > 0
    } else if b.len() == 0 {
        false
    } else if a[0] != b[0] {
        (a[0] as u32) < (b[0] as u32)
    } else {
        key_lt(a.drop_first(), b.drop_first())
    }
}

pub proof fn lemma_key_lt_irreflexive(a: Seq<char>)
    ensures
        !key_lt(a, a),
    decreases a.len(),
{
    if a.len() > 0 {
        lemma_key_lt_irreflexive(a.drop_first());
    }
}

pub proof fn lemma_key_lt_transitive(a: Seq<char>, b: Seq<char>, c: Seq<char>)
    requires
        key_lt(a, b),
        key_lt(b, c),
    ensures
        key_lt(a, c),
    decreases a.len(),
{
    if a.len() > 0 && b.len() > 0 && c.len() > 0 && a[0] == b[0] && b[0] == c[0] {
        lemma_key_lt_transitive(a.drop_first(), b.drop_first(), c.drop_first());
    }
}

pub proof fn lemma_key_lt_total(a: Seq<char>, b: Seq<char>)
    requires
        a != b,
    ensures
        key_lt(a, b) || key_lt(b, a),
    decreases a.len(),
{
    if a.len() > 0 && b.len() > 0 && a[0] == b[0] {
        if a.drop_first() == b.drop_first() {
            assert(a.drop_first().len() == b.drop_first().len());
            assert(a =~= b) by {
                assert forall|i: int| 0 <= i < a.len() implies a[i] == b[i] by {
                    if i > 0 {
                        assert(a[i] == a.drop_first()[i - 1]);
                        assert(b[i] == b.drop_first()[i - 1]);
                    }
                }
            }
        } else {
            lemma_key_lt_total(a.drop_first(), b.drop_first());
        }
    } else if a.len() == 0 && b.len() == 0 {
        assert(a =~= b);
    } else if a.len() > 0 && b.len() > 0 {
        vstd::utf8::char_u32_cast(a[0], a[0] as u32);
        vstd::utf8::char_u32_cast(b[0], b[0] as u32);
    }
}

/// Compares two keys in the wire order.
pub fn key_less(a: &String, b: &String) -> (r: bool)
    ensures
        r == key_lt(a@, b@),
{
    let sa = a.as_str();
    let sb = b.as_str();
    let la = sa.unicode_len();
    let lb = sb.unicode_len();
    let mut i: usize = 0;
    assert(a@.skip(0) =~= a@);
    assert(b@.skip(0) =~= b@);
    while i < la && i < lb
        invariant
            i <= la,
            i <= lb,
            la == a@.len(),
            lb == b@.len(),
            sa@ == a@,
            sb@ == b@,
            key_lt(a@, b@) == key_lt(a@.skip(i as int), b@.skip(i as int)),
        decreases la - i,
    {
        let ca = sa.get_char(i);
        let cb = sb.get_char(i);
        assert(a@.skip(i as int)[0] == ca);
        assert(b@.skip(i as int)[0] == cb);
        if ca != cb {
            return (ca as u32) < (cb as u32);
        }
        assert(a@.skip(i as int).drop_first() =~= a@.skip(i + 1));
        assert(b@.skip(i as int).drop_first() =~= b@.skip(i + 1));
        i += 1;
    }
    i < lb
}

/// Entries whose keys ascend strictly in the wire order (so keys are unique).
pub open spec fn strictly_sorted<V>(s: Seq<(Seq<char>, V)>) -> bool {
    forall|i: int, j: int| 0 <= i < j < s.len() ==> key_lt(#[trigger] s[i].0, #[trigger] s[j].0)
}

/// The mapping that a sequence of entries denotes; a later entry overrides an
/// earlier one with the same key.
pub open spec fn entries_map<V>(s: Seq<(Seq<char>, V)>) -> Map<Seq<char>, V>
    decreases s.len(),
{
    if s.len() == 0 {
        Map::empty()
    } else {
        entries_map(s.drop_last()).insert(s.last().0, s.last().1)
    }
}

pub proof fn lemma_entries_map_sorted<V>(s: Seq<(Seq<char>, V)>)
    requires
        strictly_sorted(s),
    ensures
        forall|k: Seq<char>|
            #[trigger] entries_map(s).contains_key(k) <==> exists|i: int|
                0 <= i < s.len() && s[i].0 == k,
        forall|i: int| 0 <= i < s.len() ==> #[trigger] entries_map(s)[s[i].0] == s[i].1,
        entries_map(s).dom().finite(),
    decreases s.len(),
{
    if s.len() > 0 {
        let p = s.drop_last();
        lemma_entries_map_sorted(p);
        let n = s.len() - 1;
        assert forall|k: Seq<char>|
            #[trigger] entries_map(s).contains_key(k) <==> exists|i: int|
                0 <= i < s.len() && s[i].0 == k by {
            if entries_map(s).contains_key(k) && k != s.last().0 {
                let i = choose|i: int| 0 <= i < p.len() && p[i].0 == k;
                assert(s[i].0 == k);
            }
            if exists|i: int| 0 <= i < s.len() && s[i].0 == k {
                let i = choose|i: int| 0 <= i < s.len() && s[i].0 == k;
                if i < n {
                    assert(p[i].0 == k);
                }
            }
        }
        assert forall|i: int| 0 <= i < s.len() implies #[trigger] entries_map(s)[s[i].0] == s[i].1 by {
            if i < n {
                assert(key_lt(s[i].0, s[n].0));
                lemma_key_lt_irreflexive(s[i].0);
                assert(p[i] == s[i]);
            }
        }
    }
}

/// Two strictly sorted entry sequences that denote the same mapping are equal.
pub proof fn lemma_sorted_unique<V>(s1: Seq<(Seq<char>, V)>, s2: Seq<(Seq<char>, V)>)
    requires
        strictly_sorted(s1),
        strictly_sorted(s2),
        entries_map(s1) == entries_map(s2),
    ensures
        s1 == s2,
    decreases s1.len() + s2.len(),
{
    lemma_entries_map_sorted(s1);
    lemma_entries_map_sorted(s2);
    let m = entries_map(s1);
    if s1.len() == 0 || s2.len() == 0 {
        if s1.len() > 0 {
            assert(m.contains_key(s1[0].0));
        }
        if s2.len() > 0 {
            assert(m.contains_key(s2[0].0));
        }
        assert(s1 =~= s2);
    } else {
        let n1 = s1.len() - 1;
        let n2 = s2.len() - 1;
        let k1 = s1[n1].0;
        let k2 = s2[n2].0;
        if k1 != k2 {
            assert(m.contains_key(k1));
            assert(m.contains_key(k2));
            let i1 = choose|i: int| 0 <= i < s1.len() && s1[i].0 == k2;
            let i2 = choose|i: int| 0 <= i < s2.len() && s2[i].0 == k1;
            lemma_key_lt_total(k1, k2);
            if key_lt(k1, k2) {
                assert(i1 < n1);
                assert(key_lt(k2, k1));
                lemma_key_lt_transitive(k1, k2, k1);
            } else {
                assert(i2 < n2);
                assert(key_lt(k1, k2));
                lemma_key_lt_transitive(k1, k2, k1);
            }
            lemma_key_lt_irreflexive(k1);
        }
        assert(m[k1] == s1[n1].1);
        assert(m[k2] == s2[n2].1);
        let p1 = s1.drop_last();
        let p2 = s2.drop_last();
        lemma_entries_map_sorted(p1);
        lemma_entries_map_sorted(p2);
        assert(!entries_map(p1).contains_key(k1)) by {
            if entries_map(p1).contains_key(k1) {
                let i = choose|i: int| 0 <= i < p1.len() && p1[i].0 == k1;
                assert(key_lt(s1[i].0, s1[n1].0));
                lemma_key_lt_irreflexive(k1);
            }
        }
        assert(!entries_map(p2).contains_key(k1)) by {
            if entries_map(p2).contains_key(k1) {
                let i = choose|i: int| 0 <= i < p2.len() && p2[i].0 == k1;
                assert(key_lt(s2[i].0, s2[n2].0));
                lemma_key_lt_irreflexive(k1);
            }
        }
        assert(entries_map(p1) =~= m.remove(k1));
        assert(entries_map(p2) =~= m.remove(k1));
        lemma_sorted_unique(p1, p2);
        assert(s1 =~= p1.push(s1[n1]));
        assert(s2 =~= p2.push(s2[n2]));
    }
}

} // verus!
