use vstd::prelude::*;
use crate::order::{entries_map, key_lt, lemma_sorted_unique, strictly_sorted};
use crate::value::{
    host_entries_of, host_of, host_seq_of, sorted_entries, wire_map_of, wire_of, wire_seq_of, Host,
    Wire,
};

verus! {

/// A wire value whose objects, at every depth, list their keys in strictly
/// ascending order: the form every converted value has.
pub open spec fn wire_wf(w: Wire) -> bool
    decreases w,
{
    match w {
        Wire::Array(s) => wire_seq_wf(s),
        Wire::Object(es) => strictly_sorted(es) && wire_entries_wf(es),
        _ => true,
    }
}

pub open spec fn wire_seq_wf(s: Seq<Wire>) -> bool
    decreases s,
{
    s.len() == 0 || (wire_seq_wf(s.drop_last()) && wire_wf(s.last()))
}

pub open spec fn wire_entries_wf(es: Seq<(Seq<char>, Wire)>) -> bool
    decreases es,
{
    es.len() == 0 || (wire_entries_wf(es.drop_last()) && wire_wf(es.last().1))
}

/// Converting a well-formed wire value to the host and back gives it back.
pub proof fn lemma_wire_round_trip(w: Wire)
    requires
        wire_wf(w),
    ensures
        wire_of(host_of(w)) == Ok::<Wire, crate::value::ConversionError>(w),
    decreases w,
{
    match w {
        Wire::Array(s) => {
            assert(decreases_to!(w => w->Array_0));
            lemma_wire_seq_round_trip(s);
        },
        Wire::Object(es) => {
            assert(decreases_to!(w => w->Object_0));
            lemma_wire_entries_round_trip(es);
            let c = sorted_entries(entries_map(es));
            lemma_sorted_unique(c, es);
        },
        _ => {},
    }
}

proof fn lemma_wire_seq_round_trip(s: Seq<Wire>)
    requires
        wire_seq_wf(s),
    ensures
        wire_seq_of(host_seq_of(s)) == Ok::<Seq<Wire>, crate::value::ConversionError>(s),
    decreases s,
{
    if s.len() > 0 {
        lemma_wire_seq_round_trip(s.drop_last());
        lemma_wire_round_trip(s.last());
        let hs = host_seq_of(s);
        assert(hs.drop_last() =~= host_seq_of(s.drop_last()));
        assert(hs.last() == host_of(s.last()));
        assert(s.drop_last().push(s.last()) =~= s);
    } else {
        assert(s =~= Seq::<Wire>::empty());
    }
}

proof fn lemma_wire_entries_round_trip(es: Seq<(Seq<char>, Wire)>)
    requires
        wire_entries_wf(es),
    ensures
        wire_map_of(host_entries_of(es)) == Ok::<Map<Seq<char>, Wire>, crate::value::ConversionError>(
            entries_map(es),
        ),
    decreases es,
{
    if es.len() > 0 {
        lemma_wire_entries_round_trip(es.drop_last());
        lemma_wire_round_trip(es.last().1);
        let hs = host_entries_of(es);
        assert(hs.drop_last() =~= host_entries_of(es.drop_last()));
    }
}

/// A host mapping whose keys are all strings, in strictly ascending order.
pub open spec fn dict_keys_sorted(es: Seq<(Host, Host)>) -> bool {
    &&& forall|i: int| 0 <= i < es.len() ==> (#[trigger] es[i]).0 is Str
    &&& forall|i: int, j: int|
        0 <= i < j < es.len() ==> key_lt(#[trigger] es[i].0->Str_0, #[trigger] es[j].0->Str_0)
}

/// A host value built from supported values only: integers in the signed
/// 64-bit range, and mappings with string keys listed in ascending order.
pub open spec fn host_canonical(h: Host) -> bool
    decreases h,
{
    match h {
        Host::Int(i) => i64::MIN <= i <= i64::MAX,
        Host::Unsupported => false,
        Host::List(s) => host_seq_canonical(s),
        Host::Dict(es) => dict_keys_sorted(es) && host_entries_canonical(es),
        _ => true,
    }
}

pub open spec fn host_seq_canonical(s: Seq<Host>) -> bool
    decreases s,
{
    s.len() == 0 || (host_seq_canonical(s.drop_last()) && host_canonical(s.last()))
}

pub open spec fn host_entries_canonical(es: Seq<(Host, Host)>) -> bool
    decreases es,
{
    es.len() == 0 || (host_entries_canonical(es.drop_last()) && host_canonical(es.last().1))
}

/// Converting a canonical host value to the wire and back gives it back.
pub proof fn lemma_host_round_trip(h: Host)
    requires
        host_canonical(h),
    ensures
        wire_of(h) is Ok,
        host_of(wire_of(h)->Ok_0) == h,
    decreases h,
{
    match h {
        Host::List(s) => {
            assert(decreases_to!(h => h->List_0));
            lemma_host_seq_round_trip(s);
        },
        Host::Dict(es) => {
            assert(decreases_to!(h => h->Dict_0));
            let ws = lemma_host_entries_round_trip(es);
            assert(strictly_sorted(ws)) by {
                assert forall|i: int, j: int| 0 <= i < j < ws.len() implies key_lt(
                    #[trigger] ws[i].0,
                    #[trigger] ws[j].0,
                ) by {
                    assert(key_lt(es[i].0->Str_0, es[j].0->Str_0));
                }
            }
            let c = sorted_entries(entries_map(ws));
            lemma_sorted_unique(c, ws);
        },
        _ => {},
    }
}

proof fn lemma_host_seq_round_trip(s: Seq<Host>)
    requires
        host_seq_canonical(s),
    ensures
        wire_seq_of(s) is Ok,
        host_seq_of(wire_seq_of(s)->Ok_0) == s,
    decreases s,
{
    if s.len() > 0 {
        lemma_host_seq_round_trip(s.drop_last());
        lemma_host_round_trip(s.last());
        let ws = wire_seq_of(s)->Ok_0;
        assert(ws.drop_last() =~= wire_seq_of(s.drop_last())->Ok_0);
        assert(s.drop_last().push(s.last()) =~= s);
    }
}

/// For string-keyed host entries with convertible values, the wire entries in
/// the same order: they denote the converted mapping and convert back.
proof fn lemma_host_entries_round_trip(es: Seq<(Host, Host)>) -> (ws: Seq<(Seq<char>, Wire)>)
    requires
        host_entries_canonical(es),
        forall|i: int| 0 <= i < es.len() ==> (#[trigger] es[i]).0 is Str,
    ensures
        ws.len() == es.len(),
        forall|i: int| 0 <= i < es.len() ==> (#[trigger] ws[i]).0 == es[i].0->Str_0,
        wire_map_of(es) == Ok::<Map<Seq<char>, Wire>, crate::value::ConversionError>(entries_map(ws)),
        host_entries_of(ws) == es,
    decreases es,
{
    if es.len() == 0 {
        assert(host_entries_of(Seq::<(Seq<char>, Wire)>::empty()) =~= es);
        Seq::empty()
    } else {
        let p = es.drop_last();
        assert forall|i: int| 0 <= i < p.len() implies (#[trigger] p[i]).0 is Str by {
            assert(p[i] == es[i]);
        }
        let pw = lemma_host_entries_round_trip(p);
        let last = es.last();
        assert(es[es.len() - 1] == last);
        lemma_host_round_trip(last.1);
        let ws = pw.push((last.0->Str_0, wire_of(last.1)->Ok_0));
        assert(ws.drop_last() =~= pw);
        assert(p.push(last) =~= es);
        ws
    }
}

/// Keys are pairwise distinct, as in any host mapping.
pub open spec fn dict_keys_unique(es: Seq<(Host, Host)>) -> bool {
    forall|i: int, j: int| 0 <= i < j < es.len() ==> #[trigger] es[i].0 != #[trigger] es[j].0
}

/// A mapping converts only if every string-keyed value converts.
pub proof fn lemma_wire_map_values_convert(es: Seq<(Host, Host)>)
    requires
        wire_map_of(es) is Ok,
    ensures
        forall|i: int|
            0 <= i < es.len() && (#[trigger] es[i]).0 is Str ==> wire_of(es[i].1) is Ok,
    decreases es,
{
    if es.len() > 0 {
        lemma_wire_map_values_convert(es.drop_last());
        assert forall|i: int| 0 <= i < es.len() && (#[trigger] es[i]).0 is Str implies wire_of(
            es[i].1,
        ) is Ok by {
            if i < es.len() - 1 {
                assert(es.drop_last()[i] == es[i]);
            }
        }
    }
}

/// A host mapping with an unsupported value under a string key has no wire
/// form: the conversion fails before anything is sent.
pub proof fn lemma_unsupported_rejected(es: Seq<(Host, Host)>, i: int)
    requires
        0 <= i < es.len(),
        es[i].0 is Str,
        es[i].1 == Host::Unsupported,
    ensures
        wire_of(Host::Dict(es)) is Err,
{
    if wire_map_of(es) is Ok {
        lemma_wire_map_values_convert(es);
        assert(wire_of(es[i].1) is Ok);
    }
}

/// What a mapping with unique keys converts to: each string key maps to its
/// converted value, provided every such value converts.
proof fn lemma_wire_map_unique(es: Seq<(Host, Host)>)
    requires
        dict_keys_unique(es),
        forall|i: int| 0 <= i < es.len() && (#[trigger] es[i]).0 is Str ==> wire_of(es[i].1) is Ok,
    ensures
        wire_map_of(es) is Ok,
        forall|k: Seq<char>|
            #[trigger] wire_map_of(es)->Ok_0.contains_key(k) <==> exists|i: int|
                0 <= i < es.len() && es[i].0 == Host::Str(k),
        forall|i: int|
            0 <= i < es.len() && (#[trigger] es[i]).0 is Str ==> wire_map_of(es)->Ok_0[es[i].0->Str_0]
                == wire_of(es[i].1)->Ok_0,
    decreases es,
{
    if es.len() > 0 {
        let p = es.drop_last();
        let n = es.len() - 1;
        assert forall|i: int| 0 <= i < p.len() && (#[trigger] p[i]).0 is Str implies wire_of(
            p[i].1,
        ) is Ok by {
            assert(p[i] == es[i]);
        }
        lemma_wire_map_unique(p);
        let m = wire_map_of(es)->Ok_0;
        assert forall|k: Seq<char>| #[trigger] m.contains_key(k) <==> exists|i: int|
            0 <= i < es.len() && es[i].0 == Host::Str(k) by {
            if m.contains_key(k) && es[n].0 != Host::Str(k) {
                let i = choose|i: int| 0 <= i < p.len() && p[i].0 == Host::Str(k);
                assert(es[i] == p[i]);
            }
            if exists|i: int| 0 <= i < es.len() && es[i].0 == Host::Str(k) {
                let i = choose|i: int| 0 <= i < es.len() && es[i].0 == Host::Str(k);
                if i < n {
                    assert(p[i] == es[i]);
                }
            }
        }
        assert forall|i: int| 0 <= i < es.len() && (#[trigger] es[i]).0 is Str implies m[es[i].0->Str_0]
            == wire_of(es[i].1)->Ok_0 by {
            if i < n {
                assert(p[i] == es[i]);
                assert(es[i].0 != es[n].0);
            }
        }
    }
}

/// Every entry of `es2` is an entry of `es1`.
pub open spec fn entries_within(es2: Seq<(Host, Host)>, es1: Seq<(Host, Host)>) -> bool {
    forall|j: int| 0 <= j < es2.len() ==> es1.contains(#[trigger] es2[j])
}

proof fn lemma_set_within(es2: Seq<(Host, Host)>, es1: Seq<(Host, Host)>)
    requires
        es1.to_set() == es2.to_set(),
    ensures
        entries_within(es2, es1),
{
    assert forall|j: int| 0 <= j < es2.len() implies es1.contains(#[trigger] es2[j]) by {
        assert(es2.contains(es2[j]));
        assert(es2.to_set().contains(es2[j]));
        assert(es1.to_set().contains(es2[j]));
        assert(es1.contains(es2[j]));
    }
}

proof fn lemma_within_converts(es1: Seq<(Host, Host)>, es2: Seq<(Host, Host)>)
    requires
        entries_within(es2, es1),
        wire_map_of(es1) is Ok,
    ensures
        forall|j: int| 0 <= j < es2.len() && (#[trigger] es2[j]).0 is Str ==> wire_of(es2[j].1) is Ok,
{
    lemma_wire_map_values_convert(es1);
    assert forall|j: int| 0 <= j < es2.len() && (#[trigger] es2[j]).0 is Str implies wire_of(
        es2[j].1,
    ) is Ok by {
        let i = choose|i: int| 0 <= i < es1.len() && es1[i] == es2[j];
        assert(es1[i].0 is Str);
    }
}

proof fn lemma_within_keys(es1: Seq<(Host, Host)>, es2: Seq<(Host, Host)>)
    requires
        entries_within(es2, es1),
        dict_keys_unique(es1),
        dict_keys_unique(es2),
        wire_map_of(es1) is Ok,
        wire_map_of(es2) is Ok,
        forall|i: int| 0 <= i < es1.len() && (#[trigger] es1[i]).0 is Str ==> wire_of(es1[i].1) is Ok,
        forall|i: int| 0 <= i < es2.len() && (#[trigger] es2[i]).0 is Str ==> wire_of(es2[i].1) is Ok,
    ensures
        forall|k: Seq<char>| #[trigger] wire_map_of(es2)->Ok_0.contains_key(k)
            ==> wire_map_of(es1)->Ok_0.contains_key(k)
            && wire_map_of(es1)->Ok_0[k] == wire_map_of(es2)->Ok_0[k],
{
    lemma_wire_map_unique(es1);
    lemma_wire_map_unique(es2);
    let m1 = wire_map_of(es1)->Ok_0;
    let m2 = wire_map_of(es2)->Ok_0;
    assert forall|k: Seq<char>| #[trigger] m2.contains_key(k) implies m1.contains_key(k) && m1[k]
        == m2[k] by {
        let j = choose|j: int| 0 <= j < es2.len() && es2[j].0 == Host::Str(k);
        let i = choose|i: int| 0 <= i < es1.len() && es1[i] == es2[j];
        assert(es1[i].0 == Host::Str(k));
        assert(es1[i].0 is Str);
        assert(es2[j].0 is Str);
    }
}

/// Two host mappings with the same entries, in whatever order, have the same
/// wire form; in particular their objects list keys in the same order.
pub proof fn lemma_key_order_independent(es1: Seq<(Host, Host)>, es2: Seq<(Host, Host)>)
    requires
        dict_keys_unique(es1),
        dict_keys_unique(es2),
        es1.to_set() == es2.to_set(),
        wire_of(Host::Dict(es1)) is Ok,
    ensures
        wire_of(Host::Dict(es2)) == wire_of(Host::Dict(es1)),
{
    lemma_same_map(es1, es2);
}

proof fn lemma_same_map(es1: Seq<(Host, Host)>, es2: Seq<(Host, Host)>)
    requires
        dict_keys_unique(es1),
        dict_keys_unique(es2),
        es1.to_set() == es2.to_set(),
        wire_map_of(es1) is Ok,
    ensures
        wire_map_of(es2) == wire_map_of(es1),
{
    lemma_set_within(es2, es1);
    lemma_set_within(es1, es2);
    lemma_wire_map_values_convert(es1);
    lemma_within_converts(es1, es2);
    lemma_wire_map_unique(es2);
    lemma_within_keys(es1, es2);
    lemma_within_keys(es2, es1);
    lemma_maps_agree(wire_map_of(es1)->Ok_0, wire_map_of(es2)->Ok_0);
}

proof fn lemma_maps_agree(m1: Map<Seq<char>, Wire>, m2: Map<Seq<char>, Wire>)
    requires
        forall|k: Seq<char>| #[trigger] m2.contains_key(k) ==> m1.contains_key(k) && m1[k] == m2[k],
        forall|k: Seq<char>| #[trigger] m1.contains_key(k) ==> m2.contains_key(k) && m2[k] == m1[k],
    ensures
        m1 == m2,
{
    assert(m1 =~= m2);
}

} // verus!
