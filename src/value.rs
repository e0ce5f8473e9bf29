use vstd::prelude::*;
use crate::order::{
    entries_map, key_less, key_lt, lemma_entries_map_sorted, lemma_key_lt_irreflexive, lemma_key_lt_total,
    lemma_key_lt_transitive, lemma_sorted_unique, strictly_sorted,
};

verus! {

/// A value of the tagged wire model. Floats are carried as their IEEE-754 bit
/// pattern so that the model stays exact.
#[derive(Debug, PartialEq, Eq)]
pub enum TaggedValue {
    Null,
    Boolean(bool),
    Int64(i64),
    Float64(u64),
    String(String),
    Bytes(Vec<u8>),
    Array(Vec<TaggedValue>),
    Object(Vec<(String, TaggedValue)>),
}

/// Mathematical model of a `TaggedValue`.
pub enum Wire {
    Null,
    Boolean(bool),
    Int64(i64),
    Float64(u64),
    Str(Seq<char>),
    Bytes(Seq<u8>),
    Array(Seq<Wire>),
    Object(Seq<(Seq<char>, Wire)>),
}

pub open spec fn wire_model(t: TaggedValue) -> Wire
    decreases t,
{
    match t {
        TaggedValue::Null => Wire::Null,
        TaggedValue::Boolean(b) => Wire::Boolean(b),
        TaggedValue::Int64(i) => Wire::Int64(i),
        TaggedValue::Float64(f) => Wire::Float64(f),
        TaggedValue::String(s) => Wire::Str(s@),
        TaggedValue::Bytes(b) => Wire::Bytes(b@),
        TaggedValue::Array(v) => Wire::Array(wire_seq_model(v@)),
        TaggedValue::Object(v) => Wire::Object(wire_entries_model(v@)),
    }
}

pub open spec fn wire_seq_model(s: Seq<TaggedValue>) -> Seq<Wire>
    decreases s,
{
    if s.len() == 0 {
        Seq::empty()
    } else {
        wire_seq_model(s.drop_last()).push(wire_model(s.last()))
    }
}

pub open spec fn wire_entries_model(s: Seq<(String, TaggedValue)>) -> Seq<(Seq<char>, Wire)>
    decreases s,
{
    if s.len() == 0 {
        Seq::empty()
    } else {
        wire_entries_model(s.drop_last()).push((s.last().0@, wire_model(s.last().1)))
    }
}

impl View for TaggedValue {
    type V = Wire;

    open spec fn view(&self) -> Wire {
        wire_model(*self)
    }
}


/// A value of the host's dynamic value model, as handed over by the embedding.
/// Floats are carried as their IEEE-754 bit pattern; `Unsupported` stands for
/// any host object outside the model.
#[derive(Debug, PartialEq, Eq)]
pub enum HostValue {
    Nothing,
    Bool(bool),
    Int(i128),
    Float(u64),
    Str(String),
    Bytes(Vec<u8>),
    List(Vec<HostValue>),
    Dict(Vec<(HostValue, HostValue)>),
    Unsupported,
}

/// Mathematical model of a `HostValue`. A mapping is the sequence of its
/// entries in iteration order.
pub enum Host {
    Nothing,
    Bool(bool),
    Int(int),
    Float(u64),
    Str(Seq<char>),
    Bytes(Seq<u8>),
    List(Seq<Host>),
    Dict(Seq<(Host, Host)>),
    Unsupported,
}

pub open spec fn host_model(h: HostValue) -> Host
    decreases h,
{
    match h {
        HostValue::Nothing => Host::Nothing,
        HostValue::Bool(b) => Host::Bool(b),
        HostValue::Int(i) => Host::Int(i as int),
        HostValue::Float(f) => Host::Float(f),
        HostValue::Str(s) => Host::Str(s@),
        HostValue::Bytes(b) => Host::Bytes(b@),
        HostValue::List(v) => Host::List(host_seq_model(v@)),
        HostValue::Dict(v) => Host::Dict(host_entries_model(v@)),
        HostValue::Unsupported => Host::Unsupported,
    }
}

pub open spec fn host_seq_model(s: Seq<HostValue>) -> Seq<Host>
    decreases s,
{
    if s.len() == 0 {
        Seq::empty()
    } else {
        host_seq_model(s.drop_last()).push(host_model(s.last()))
    }
}

pub open spec fn host_entries_model(s: Seq<(HostValue, HostValue)>) -> Seq<(Host, Host)>
    decreases s,
{
    if s.len() == 0 {
        Seq::empty()
    } else {
        host_entries_model(s.drop_last()).push((host_model(s.last().0), host_model(s.last().1)))
    }
}

impl View for HostValue {
    type V = Host;

    open spec fn view(&self) -> Host {
        host_model(*self)
    }
}

/// The host value that a wire value converts to: integers widen, objects
/// become mappings keyed by strings in the object's order.
pub open spec fn host_of(w: Wire) -> Host
    decreases w,
{
    match w {
        Wire::Null => Host::Nothing,
        Wire::Boolean(b) => Host::Bool(b),
        Wire::Int64(i) => Host::Int(i as int),
        Wire::Float64(f) => Host::Float(f),
        Wire::Str(s) => Host::Str(s),
        Wire::Bytes(b) => Host::Bytes(b),
        Wire::Array(s) => Host::List(host_seq_of(s)),
        Wire::Object(es) => Host::Dict(host_entries_of(es)),
    }
}

pub open spec fn host_seq_of(s: Seq<Wire>) -> Seq<Host>
    decreases s,
{
    if s.len() == 0 {
        Seq::empty()
    } else {
        host_seq_of(s.drop_last()).push(host_of(s.last()))
    }
}

pub open spec fn host_entries_of(es: Seq<(Seq<char>, Wire)>) -> Seq<(Host, Host)>
    decreases es,
{
    if es.len() == 0 {
        Seq::empty()
    } else {
        host_entries_of(es.drop_last()).push((Host::Str(es.last().0), host_of(es.last().1)))
    }
}

fn copy_bytes(b: &Vec<u8>) -> (out: Vec<u8>)
    ensures
        out@ == b@,
{
    let mut out: Vec<u8> = Vec::new();
    let mut i: usize = 0;
    while i < b.len()
        invariant
            i <= b.len(),
            out@ == b@.take(i as int),
        decreases b.len() - i,
    {
        out.push(b[i]);
        i += 1;
        proof {
            assert(out@ =~= b@.take(i as int));
        }
    }
    proof {
        assert(b@.take(b@.len() as int) =~= b@);
    }
    out
}

/// Converts a wire value to the host model. Total: never fails.
pub fn from_wire(t: &TaggedValue) -> (h: HostValue)
    ensures
        h@ == host_of(t@),
    decreases t,
{
    match t {
        TaggedValue::Null => HostValue::Nothing,
        TaggedValue::Boolean(b) => HostValue::Bool(*b),
        TaggedValue::Int64(i) => HostValue::Int(*i as i128),
        TaggedValue::Float64(f) => HostValue::Float(*f),
        TaggedValue::String(s) => HostValue::Str(s.clone()),
        TaggedValue::Bytes(b) => HostValue::Bytes(copy_bytes(b)),
        TaggedValue::Array(v) => {
            let mut out: Vec<HostValue> = Vec::new();
            let mut i: usize = 0;
            while i < v.len()
                invariant
                    i <= v.len(),
                    host_seq_model(out@) == host_seq_of(wire_seq_model(v@.take(i as int))),
                    *t == TaggedValue::Array(*v),
                decreases v.len() - i,
            {
                proof {
                    assert(decreases_to!(*t => t->Array_0));
                    assert(decreases_to!(*v => v@));
                    assert(decreases_to!(v@ => v@[i as int]));
                }
                let h = from_wire(&v[i]);
                proof {
                    let ws = wire_seq_model(v@.take(i as int));
                    assert(v@.take(i + 1).drop_last() =~= v@.take(i as int));
                    assert(ws.push(wire_model(v@[i as int])).drop_last() =~= ws);
                    assert(out@.push(h).drop_last() =~= out@);
                }
                out.push(h);
                i += 1;
            }
            proof {
                assert(v@.take(v@.len() as int) =~= v@);
            }
            HostValue::List(out)
        },
        TaggedValue::Object(v) => {
            let mut out: Vec<(HostValue, HostValue)> = Vec::new();
            let mut i: usize = 0;
            while i < v.len()
                invariant
                    i <= v.len(),
                    host_entries_model(out@) == host_entries_of(wire_entries_model(v@.take(i as int))),
                    *t == TaggedValue::Object(*v),
                decreases v.len() - i,
            {
                proof {
                    assert(decreases_to!(*t => t->Object_0));
                    assert(decreases_to!(*v => v@));
                    assert(decreases_to!(v@ => v@[i as int]));
                    assert(decreases_to!(v@[i as int] => v@[i as int].1));
                }
                let h = from_wire(&v[i].1);
                let k = HostValue::Str(v[i].0.clone());
                proof {
                    let ws = wire_entries_model(v@.take(i as int));
                    assert(v@.take(i + 1).drop_last() =~= v@.take(i as int));
                    assert(ws.push((v@[i as int].0@, wire_model(v@[i as int].1))).drop_last() =~= ws);
                    assert(out@.push((k, h)).drop_last() =~= out@);
                    assert(host_entries_model(out@.push((k, h))) == host_entries_model(out@).push((k@, h@)));
                    assert(host_entries_of(ws.push((v@[i as int].0@, wire_model(v@[i as int].1)))) ==
                        host_entries_of(ws).push((Host::Str(v@[i as int].0@), h@)));
                }
                out.push((k, h));
                i += 1;
            }
            proof {
                assert(v@.take(v@.len() as int) =~= v@);
            }
            HostValue::Dict(out)
        },
    }
}


pub proof fn lemma_wire_entries_index(s: Seq<(String, TaggedValue)>)
    ensures
        wire_entries_model(s).len() == s.len(),
        forall|i: int|
            0 <= i < s.len() ==> #[trigger] wire_entries_model(s)[i] == (s[i].0@, wire_model(s[i].1)),
    decreases s.len(),
{
    if s.len() > 0 {
        lemma_wire_entries_index(s.drop_last());
    }
}

pub proof fn lemma_host_entries_index(s: Seq<(HostValue, HostValue)>)
    ensures
        host_entries_model(s).len() == s.len(),
        forall|i: int|
            0 <= i < s.len() ==> #[trigger] host_entries_model(s)[i] == (host_model(s[i].0), host_model(s[i].1)),
    decreases s.len(),
{
    if s.len() > 0 {
        lemma_host_entries_index(s.drop_last());
    }
}

pub proof fn lemma_host_seq_index(s: Seq<HostValue>)
    ensures
        host_seq_model(s).len() == s.len(),
        forall|i: int| 0 <= i < s.len() ==> #[trigger] host_seq_model(s)[i] == host_model(s[i]),
    decreases s.len(),
{
    if s.len() > 0 {
        lemma_host_seq_index(s.drop_last());
    }
}

/// Adds `(k, w)` to strictly sorted object entries, replacing the entry with
/// the same key if there is one.
fn insert_entry(out: &mut Vec<(String, TaggedValue)>, k: String, w: TaggedValue)
    requires
        strictly_sorted(wire_entries_model(old(out)@)),
    ensures
        strictly_sorted(wire_entries_model(final(out)@)),
        entries_map(wire_entries_model(final(out)@)) == entries_map(wire_entries_model(old(out)@)).insert(k@, w@),
{
    let ghost s = wire_entries_model(out@);
    let ghost e = (k@, w@);
    proof {
        lemma_wire_entries_index(out@);
        lemma_entries_map_sorted(s);
    }
    let mut p: usize = 0;
    while p < out.len() && key_less(&out[p].0, &k)
        invariant
            p <= out.len(),
            s == wire_entries_model(out@),
            s.len() == out@.len(),
            forall|j: int| 0 <= j < p ==> key_lt(#[trigger] s[j].0, k@),
        decreases out.len() - p,
    {
        proof {
            lemma_wire_entries_index(out@);
        }
        p += 1;
    }
    if p < out.len() && out[p].0 == k {
        out.set(p, (k, w));
        proof {
            let s2 = wire_entries_model(out@);
            lemma_wire_entries_index(out@);
            assert(s2 =~= s.update(p as int, e));
            assert(forall|i: int| 0 <= i < s.len() ==> #[trigger] s2[i].0 == s[i].0);
            lemma_entries_map_sorted(s2);
            assert(entries_map(s2) =~= entries_map(s).insert(k@, w@)) by {
                assert forall|key: Seq<char>| #[trigger] entries_map(s2).contains_key(key)
                    == entries_map(s).insert(k@, w@).contains_key(key) by {
                    if entries_map(s).contains_key(key) {
                        let i = choose|i: int| 0 <= i < s.len() && s[i].0 == key;
                        assert(s2[i].0 == key);
                    }
                    if key == k@ {
                        assert(s2[p as int].0 == key);
                    }
                    if entries_map(s2).contains_key(key) {
                        let i = choose|i: int| 0 <= i < s2.len() && s2[i].0 == key;
                        assert(s[i].0 == key);
                    }
                }
                assert forall|key: Seq<char>| #[trigger] entries_map(s2).contains_key(key)
                    implies entries_map(s2)[key] == entries_map(s).insert(k@, w@)[key] by {
                    let i = choose|i: int| 0 <= i < s2.len() && s2[i].0 == key;
                    if i != p {
                        assert(s[i] == s2[i]);
                        lemma_key_lt_irreflexive(key);
                        if i < p {
                            assert(key_lt(s[i].0, s[p as int].0));
                        } else {
                            assert(key_lt(s[p as int].0, s[i].0));
                        }
                    }
                }
            }
        }
    } else {
        proof {
            if p < out.len() {
                lemma_key_lt_total(s[p as int].0, k@);
            }
            assert forall|j: int| p <= j < s.len() implies key_lt(k@, #[trigger] s[j].0) by {
                if j > p {
                    lemma_key_lt_transitive(k@, s[p as int].0, s[j].0);
                }
            }
        }
        out.insert(p, (k, w));
        proof {
            let s2 = wire_entries_model(out@);
            lemma_wire_entries_index(out@);
            assert(s2 =~= s.insert(p as int, e));
            assert(strictly_sorted(s2)) by {
                assert forall|i: int, j: int| 0 <= i < j < s2.len() implies key_lt(
                    #[trigger] s2[i].0,
                    #[trigger] s2[j].0,
                ) by {
                    if i < p && j > p {
                        lemma_key_lt_transitive(s2[i].0, k@, s2[j].0);
                    }
                }
            }
            lemma_entries_map_sorted(s2);
            assert(entries_map(s2) =~= entries_map(s).insert(k@, w@)) by {
                assert forall|key: Seq<char>| #[trigger] entries_map(s2).contains_key(key)
                    == entries_map(s).insert(k@, w@).contains_key(key) by {
                    if entries_map(s).contains_key(key) {
                        let i = choose|i: int| 0 <= i < s.len() && s[i].0 == key;
                        if i < p {
                            assert(s2[i].0 == key);
                        } else {
                            assert(s2[i + 1].0 == key);
                        }
                    }
                    if key == k@ {
                        assert(s2[p as int].0 == key);
                    }
                    if entries_map(s2).contains_key(key) {
                        let i = choose|i: int| 0 <= i < s2.len() && s2[i].0 == key;
                        if i < p {
                            assert(s[i].0 == key);
                        } else if i > p {
                            assert(s[i - 1].0 == key);
                        }
                    }
                }
                assert forall|key: Seq<char>| #[trigger] entries_map(s2).contains_key(key)
                    implies entries_map(s2)[key] == entries_map(s).insert(k@, w@)[key] by {
                    let i = choose|i: int| 0 <= i < s2.len() && s2[i].0 == key;
                    lemma_key_lt_irreflexive(key);
                    if i < p {
                        assert(s[i] == s2[i]);
                    } else if i > p {
                        assert(s[i - 1] == s2[i]);
                    }
                }
            }
        }
    }
}


/// Why a host value has no wire form.
#[derive(Clone, Copy, Debug, PartialEq, Eq, Structural)]
pub enum ConversionError {
    /// A host object outside the wire model.
    UnsupportedType,
    /// An integer outside the signed 64-bit range.
    IntegerOverflow,
}

/// The wire form of a host value, or the first reason (in iteration order)
/// that it has none. Mapping entries with a non-string key are dropped without
/// looking at their value; object entries come out sorted by key.
pub open spec fn wire_of(h: Host) -> Result<Wire, ConversionError>
    decreases h,
{
    match h {
        Host::Nothing => Ok(Wire::Null),
        Host::Bool(b) => Ok(Wire::Boolean(b)),
        Host::Int(i) => if i64::MIN <= i <= i64::MAX {
            Ok(Wire::Int64(i as i64))
        } else {
            Err(ConversionError::IntegerOverflow)
        },
        Host::Float(f) => Ok(Wire::Float64(f)),
        Host::Str(s) => Ok(Wire::Str(s)),
        Host::Bytes(b) => Ok(Wire::Bytes(b)),
        Host::List(s) => match wire_seq_of(s) {
            Ok(ws) => Ok(Wire::Array(ws)),
            Err(e) => Err(e),
        },
        Host::Dict(es) => match wire_map_of(es) {
            Ok(m) => Ok(Wire::Object(sorted_entries(m))),
            Err(e) => Err(e),
        },
        Host::Unsupported => Err(ConversionError::UnsupportedType),
    }
}

pub open spec fn wire_seq_of(s: Seq<Host>) -> Result<Seq<Wire>, ConversionError>
    decreases s,
{
    if s.len() == 0 {
        Ok(Seq::empty())
    } else {
        match wire_seq_of(s.drop_last()) {
            Err(e) => Err(e),
            Ok(p) => match wire_of(s.last()) {
                Ok(w) => Ok(p.push(w)),
                Err(e) => Err(e),
            },
        }
    }
}

/// The mapping from string keys to wire values that host mapping entries
/// denote; a later entry overrides an earlier one with the same key.
pub open spec fn wire_map_of(es: Seq<(Host, Host)>) -> Result<Map<Seq<char>, Wire>, ConversionError>
    decreases es,
{
    if es.len() == 0 {
        Ok(Map::empty())
    } else {
        match wire_map_of(es.drop_last()) {
            Err(e) => Err(e),
            Ok(m) => match es.last().0 {
                Host::Str(k) => match wire_of(es.last().1) {
                    Ok(w) => Ok(m.insert(k, w)),
                    Err(e) => Err(e),
                },
                _ => Ok(m),
            },
        }
    }
}

/// The object entries, strictly sorted by key, that denote `m`.
pub open spec fn sorted_entries(m: Map<Seq<char>, Wire>) -> Seq<(Seq<char>, Wire)> {
    choose|s: Seq<(Seq<char>, Wire)>| strictly_sorted(s) && entries_map(s) == m
}

proof fn lemma_wire_seq_err(s: Seq<Host>, n: int)
    requires
        0 <= n <= s.len(),
        wire_seq_of(s.take(n)) is Err,
    ensures
        wire_seq_of(s) == wire_seq_of(s.take(n)),
    decreases s.len(),
{
    if n == s.len() {
        assert(s.take(n) =~= s);
    } else {
        assert(s.drop_last().take(n) =~= s.take(n));
        lemma_wire_seq_err(s.drop_last(), n);
    }
}

proof fn lemma_wire_map_err(s: Seq<(Host, Host)>, n: int)
    requires
        0 <= n <= s.len(),
        wire_map_of(s.take(n)) is Err,
    ensures
        wire_map_of(s) == wire_map_of(s.take(n)),
    decreases s.len(),
{
    if n == s.len() {
        assert(s.take(n) =~= s);
    } else {
        assert(s.drop_last().take(n) =~= s.take(n));
        lemma_wire_map_err(s.drop_last(), n);
    }
}

/// Converts a host value to its wire form, failing on the first value that
/// has none.
pub fn to_wire(h: &HostValue) -> (r: Result<TaggedValue, ConversionError>)
    ensures
        match r {
            Ok(t) => wire_of(h@) == Ok::<Wire, ConversionError>(t@),
            Err(e) => wire_of(h@) == Err::<Wire, ConversionError>(e),
        },
    decreases h,
{
    match h {
        HostValue::Nothing => Ok(TaggedValue::Null),
        HostValue::Bool(b) => Ok(TaggedValue::Boolean(*b)),
        HostValue::Int(i) => {
            if *i >= i64::MIN as i128 && *i <= i64::MAX as i128 {
                Ok(TaggedValue::Int64(*i as i64))
            } else {
                Err(ConversionError::IntegerOverflow)
            }
        },
        HostValue::Float(f) => Ok(TaggedValue::Float64(*f)),
        HostValue::Str(s) => Ok(TaggedValue::String(s.clone())),
        HostValue::Bytes(b) => Ok(TaggedValue::Bytes(copy_bytes(b))),
        HostValue::List(v) => {
            let mut out: Vec<TaggedValue> = Vec::new();
            let mut i: usize = 0;
            while i < v.len()
                invariant
                    i <= v.len(),
                    wire_seq_of(host_seq_model(v@.take(i as int))) == Ok::<Seq<Wire>, ConversionError>(wire_seq_model(out@)),
                    *h == HostValue::List(*v),
                decreases v.len() - i,
            {
                proof {
                    assert(decreases_to!(*h => h->List_0));
                    assert(decreases_to!(*v => v@));
                    assert(decreases_to!(v@ => v@[i as int]));
                }
                let ghost hs = host_seq_model(v@.take(i as int));
                proof {
                    assert(v@.take(i + 1).drop_last() =~= v@.take(i as int));
                    assert(hs.push(host_model(v@[i as int])).drop_last() =~= hs);
                }
                match to_wire(&v[i]) {
                    Ok(t) => {
                        proof {
                            assert(out@.push(t).drop_last() =~= out@);
                        }
                        out.push(t);
                    },
                    Err(e) => {
                        proof {
                            lemma_host_seq_index(v@);
                            lemma_host_seq_index(v@.take(i + 1));
                            assert(host_seq_model(v@.take(i + 1)) =~= host_seq_model(v@).take(i + 1));
                            lemma_wire_seq_err(host_seq_model(v@), i + 1);
                        }
                        return Err(e);
                    },
                }
                i += 1;
            }
            proof {
                assert(v@.take(v@.len() as int) =~= v@);
            }
            Ok(TaggedValue::Array(out))
        },
        HostValue::Dict(v) => {
            let mut out: Vec<(String, TaggedValue)> = Vec::new();
            let mut i: usize = 0;
            while i < v.len()
                invariant
                    i <= v.len(),
                    strictly_sorted(wire_entries_model(out@)),
                    wire_map_of(host_entries_model(v@.take(i as int)))
                        == Ok::<Map<Seq<char>, Wire>, ConversionError>(entries_map(wire_entries_model(out@))),
                    *h == HostValue::Dict(*v),
                decreases v.len() - i,
            {
                proof {
                    assert(decreases_to!(*h => h->Dict_0));
                    assert(decreases_to!(*v => v@));
                    assert(decreases_to!(v@ => v@[i as int]));
                    assert(decreases_to!(v@[i as int] => v@[i as int].1));
                }
                let ghost hs = host_entries_model(v@.take(i as int));
                proof {
                    assert(v@.take(i + 1).drop_last() =~= v@.take(i as int));
                    assert(hs.push((host_model(v@[i as int].0), host_model(v@[i as int].1))).drop_last() =~= hs);
                }
                match &v[i].0 {
                    HostValue::Str(k) => {
                        match to_wire(&v[i].1) {
                            Ok(t) => {
                                insert_entry(&mut out, k.clone(), t);
                            },
                            Err(e) => {
                                proof {
                                    lemma_host_entries_index(v@);
                                    lemma_host_entries_index(v@.take(i + 1));
                                    assert(host_entries_model(v@.take(i + 1)) =~= host_entries_model(v@).take(i + 1));
                                    lemma_wire_map_err(host_entries_model(v@), i + 1);
                                }
                                return Err(e);
                            },
                        }
                    },
                    _ => {},
                }
                i += 1;
            }
            proof {
                assert(v@.take(v@.len() as int) =~= v@);
                let s = wire_entries_model(out@);
                let m = entries_map(s);
                let c = sorted_entries(m);
                assert(strictly_sorted(s) && entries_map(s) == m);
                lemma_sorted_unique(c, s);
            }
            Ok(TaggedValue::Object(out))
        },
        HostValue::Unsupported => Err(ConversionError::UnsupportedType),
    }
}

} // verus!
