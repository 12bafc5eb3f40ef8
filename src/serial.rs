use vstd::prelude::*;

use crate::container::AttributeContainer;
use crate::error::RuleError;
use crate::handle::Handle;
use crate::named::{entries_map, lemma_entry_in_map, lemma_map_after_push, names_unique};
use crate::value::Value;

verus! {

/// The payload of a serialized value.
#[derive(Debug)]
pub enum Payload {
    Bool(bool),
    Int(i64),
    UInt(u64),
    Text(String),
}

/// A serialized value: a payload with the discriminator of the type it was
/// stored as, so that the value can be rebuilt without knowing the type in
/// advance.
#[derive(Debug)]
pub struct TaggedValue {
    pub discriminator: String,
    pub payload: Payload,
}

/// The serialized form of a container: its class and, for each attribute
/// name, the tagged value stored under it.
#[derive(Debug)]
pub struct ContainerRecord {
    pub class: Option<String>,
    pub values: Vec<(String, TaggedValue)>,
}

/// The discriminator of each value type.
pub open spec fn discriminator_of(v: Value) -> Seq<char> {
    match v {
        Value::Bool(_) => "bool"@,
        Value::I32(_) => "i32"@,
        Value::I64(_) => "i64"@,
        Value::U32(_) => "u32"@,
        Value::U64(_) => "u64"@,
        Value::Text(_) => "string"@,
        Value::Handle(_) => "handle"@,
    }
}

/// The payload that carries a value.
pub open spec fn payload_of(v: Value) -> Payload {
    match v {
        Value::Bool(b) => Payload::Bool(b),
        Value::I32(x) => Payload::Int(x as i64),
        Value::I64(x) => Payload::Int(x),
        Value::U32(x) => Payload::UInt(x as u64),
        Value::U64(x) => Payload::UInt(x),
        Value::Text(s) => Payload::Text(s),
        Value::Handle(h) => Payload::UInt(h.id()),
    }
}

/// Whether the tagged value is the serialized form of `v`.
pub open spec fn tags(t: TaggedValue, v: Value) -> bool {
    t.discriminator@ == discriminator_of(v) && t.payload == payload_of(v)
}

/// The value a tagged value stands for, or why it stands for none.
pub open spec fn decode(t: TaggedValue) -> Result<Value, RuleError> {
    let d = t.discriminator@;
    let malformed = Err(RuleError::MalformedPayload { discriminator: t.discriminator });
    if d == "bool"@ {
        match t.payload {
            Payload::Bool(b) => Ok(Value::Bool(b)),
            _ => malformed,
        }
    } else if d == "i32"@ {
        match t.payload {
            Payload::Int(x) => if i32::MIN <= x <= i32::MAX {
                Ok(Value::I32(x as i32))
            } else {
                malformed
            },
            _ => malformed,
        }
    } else if d == "i64"@ {
        match t.payload {
            Payload::Int(x) => Ok(Value::I64(x)),
            _ => malformed,
        }
    } else if d == "u32"@ {
        match t.payload {
            Payload::UInt(x) => if x <= u32::MAX {
                Ok(Value::U32(x as u32))
            } else {
                malformed
            },
            _ => malformed,
        }
    } else if d == "u64"@ {
        match t.payload {
            Payload::UInt(x) => Ok(Value::U64(x)),
            _ => malformed,
        }
    } else if d == "string"@ {
        match t.payload {
            Payload::Text(s) => Ok(Value::Text(s)),
            _ => malformed,
        }
    } else if d == "handle"@ {
        match t.payload {
            Payload::UInt(x) => Ok(Value::Handle(Handle::from_id_spec(x))),
            _ => malformed,
        }
    } else {
        Err(RuleError::UnknownDiscriminator { discriminator: t.discriminator })
    }
}

/// The values of a record's entries, each decoded and stored in order, or the
/// error of the first entry that does not decode.
pub open spec fn decode_entries(entries: Seq<(String, TaggedValue)>) -> Result<Map<Seq<char>, Value>, RuleError>
    decreases entries.len(),
{
    if entries.len() == 0 {
        Ok(Map::empty())
    } else {
        match decode_entries(entries.drop_last()) {
            Err(e) => Err(e),
            Ok(m) => match decode(entries.last().1) {
                Err(e) => Err(e),
                Ok(v) => Ok(m.insert(entries.last().0@, v)),
            },
        }
    }
}

/// Whether the record is the serialized form of the container.
pub open spec fn encodes(rec: ContainerRecord, c: AttributeContainer) -> bool {
    &&& names_unique(rec.values@)
    &&& entries_map(rec.values@).dom() == c@.dom()
    &&& forall|k: Seq<char>| #[trigger] c@.contains_key(k) ==> tags(entries_map(rec.values@)[k], c@[k])
    &&& match rec.class {
        Some(s) => c.class_view() == Some(s@),
        None => c.class_view() is None,
    }
}

/// Decoding a tagged value gives back the value it was made from.
pub proof fn lemma_decode_tagged(t: TaggedValue, v: Value)
    requires
        tags(t, v),
    ensures
        decode(t) == Ok::<Value, RuleError>(v),
{
    reveal_strlit("bool");
    reveal_strlit("i32");
    reveal_strlit("i64");
    reveal_strlit("u32");
    reveal_strlit("u64");
    reveal_strlit("string");
    reveal_strlit("handle");
    assert("i32"@[1] != "i64"@[1]);
    assert("u32"@[1] != "u64"@[1]);
    assert("i32"@[0] != "u32"@[0]);
    assert("i64"@[0] != "u64"@[0]);
    assert("i32"@[0] != "u64"@[0]);
    assert("i64"@[0] != "u32"@[0]);
    assert("handle"@[0] != "string"@[0]);
    match v {
        Value::Handle(h) => {
            Handle::lemma_from_id_spec(h);
        },
        Value::Bool(_) => {},
        Value::I32(_) => {},
        Value::I64(_) => {},
        Value::U32(_) => {},
        Value::U64(_) => {},
        Value::Text(_) => {},
    }
}

proof fn lemma_decode_entries_ok(entries: Seq<(String, TaggedValue)>, m: Map<Seq<char>, Value>)
    requires
        names_unique(entries),
        entries_map(entries).dom() == m.dom(),
        forall|k: Seq<char>| #[trigger] m.contains_key(k) ==> tags(entries_map(entries)[k], m[k]),
    ensures
        decode_entries(entries) == Ok::<Map<Seq<char>, Value>, RuleError>(m),
    decreases entries.len(),
{
    if entries.len() == 0 {
        assert(m =~= Map::<Seq<char>, Value>::empty()) by {
            assert forall|k: Seq<char>| !m.contains_key(k) by {
                assert(!entries_map(entries).contains_key(k));
            }
        }
    } else {
        let prefix = entries.drop_last();
        let last = entries.last();
        let n = (entries.len() - 1) as int;
        assert(entries == prefix.push(last));
        assert forall|i: int, j: int| 0 <= i < prefix.len() && 0 <= j < prefix.len() && i != j implies
            prefix[i].0@ != prefix[j].0@ by {
            assert(prefix[i] == entries[i] && prefix[j] == entries[j]);
        }
        assert forall|i: int| 0 <= i < prefix.len() implies #[trigger] prefix[i].0@ != last.0@ by {
            assert(prefix[i] == entries[i]);
        }
        assert(!entries_map(prefix).contains_key(last.0@)) by {
            if entries_map(prefix).contains_key(last.0@) {
                let i = choose|i: int| 0 <= i < prefix.len() && prefix[i].0@ == last.0@;
            }
        }
        lemma_map_after_push(prefix, last);
        lemma_entry_in_map(entries, n);
        let pm = m.remove(last.0@);
        assert(entries_map(prefix).dom() =~= pm.dom());
        assert forall|k: Seq<char>| #[trigger] pm.contains_key(k) implies tags(entries_map(prefix)[k], pm[k]) by {
            assert(entries_map(entries)[k] == entries_map(prefix)[k]);
        }
        lemma_decode_entries_ok(prefix, pm);
        lemma_decode_tagged(last.1, m[last.0@]);
        assert(pm.insert(last.0@, m[last.0@]) =~= m);
    }
}

/// Serialize a value with its discriminator.
pub fn to_tagged(v: &Value) -> (r: TaggedValue)
    ensures
        tags(r, *v),
{
    match v {
        Value::Bool(b) => TaggedValue { discriminator: "bool".to_owned(), payload: Payload::Bool(*b) },
        Value::I32(x) => TaggedValue { discriminator: "i32".to_owned(), payload: Payload::Int(*x as i64) },
        Value::I64(x) => TaggedValue { discriminator: "i64".to_owned(), payload: Payload::Int(*x) },
        Value::U32(x) => TaggedValue { discriminator: "u32".to_owned(), payload: Payload::UInt(*x as u64) },
        Value::U64(x) => TaggedValue { discriminator: "u64".to_owned(), payload: Payload::UInt(*x) },
        Value::Text(s) => TaggedValue { discriminator: "string".to_owned(), payload: Payload::Text(s.clone()) },
        Value::Handle(h) => TaggedValue { discriminator: "handle".to_owned(), payload: Payload::UInt(h.raw()) },
    }
}

/// Whether the text is the given literal.
fn is_tag(s: &String, literal: &str) -> (r: bool)
    ensures
        r == (s@ == literal@),
{
    *s == literal.to_owned()
}

/// Rebuild a value from its serialized form.
///
/// Fails with `UnknownDiscriminator` where no value type has the
/// discriminator, and with `MalformedPayload` where the payload does not fit
/// the type it names.
pub fn from_tagged(t: &TaggedValue) -> (r: Result<Value, RuleError>)
    ensures
        r == decode(*t),
{
    let malformed = RuleError::MalformedPayload { discriminator: t.discriminator.clone() };
    if is_tag(&t.discriminator, "bool") {
        match &t.payload {
            Payload::Bool(b) => Ok(Value::Bool(*b)),
            _ => Err(malformed),
        }
    } else if is_tag(&t.discriminator, "i32") {
        match &t.payload {
            Payload::Int(x) => if i32::MIN as i64 <= *x && *x <= i32::MAX as i64 {
                Ok(Value::I32(*x as i32))
            } else {
                Err(malformed)
            },
            _ => Err(malformed),
        }
    } else if is_tag(&t.discriminator, "i64") {
        match &t.payload {
            Payload::Int(x) => Ok(Value::I64(*x)),
            _ => Err(malformed),
        }
    } else if is_tag(&t.discriminator, "u32") {
        match &t.payload {
            Payload::UInt(x) => if *x <= u32::MAX as u64 {
                Ok(Value::U32(*x as u32))
            } else {
                Err(malformed)
            },
            _ => Err(malformed),
        }
    } else if is_tag(&t.discriminator, "u64") {
        match &t.payload {
            Payload::UInt(x) => Ok(Value::U64(*x)),
            _ => Err(malformed),
        }
    } else if is_tag(&t.discriminator, "string") {
        match &t.payload {
            Payload::Text(s) => Ok(Value::Text(s.clone())),
            _ => Err(malformed),
        }
    } else if is_tag(&t.discriminator, "handle") {
        match &t.payload {
            Payload::UInt(x) => Ok(Value::Handle(Handle::from_id(*x))),
            _ => Err(malformed),
        }
    } else {
        Err(RuleError::UnknownDiscriminator { discriminator: t.discriminator.clone() })
    }
}

impl AttributeContainer {
    /// The serialized form of this container.
    pub fn to_record(&self) -> (r: ContainerRecord)
        requires
            self.wf(),
        ensures
            encodes(r, *self),
    {
        let entries = self.iter();
        let mut values: Vec<(String, TaggedValue)> = Vec::new();
        let mut i: usize = 0;
        while i < entries.len()
            invariant
                i <= entries@.len(),
                values@.len() == i,
                names_unique(entries@),
                forall|j: int| 0 <= j < i ==> (#[trigger] values@[j]).0 == entries@[j].0 && tags(values@[j].1, entries@[j].1),
            decreases entries@.len() - i,
        {
            let name = entries[i].0.clone();
            let tagged = to_tagged(&entries[i].1);
            values.push((name, tagged));
            i += 1;
        }
        proof {
            assert forall|a: int, b: int| 0 <= a < values@.len() && 0 <= b < values@.len() && a != b implies
                values@[a].0@ != values@[b].0@ by {
                assert(values@[a].0 == entries@[a].0 && values@[b].0 == entries@[b].0);
            }
            assert forall|k: Seq<char>| #[trigger] entries_map(values@).contains_key(k) <==> self@.contains_key(k) by {
                if entries_map(values@).contains_key(k) {
                    let j = choose|j: int| 0 <= j < values@.len() && values@[j].0@ == k;
                    lemma_entry_in_map(entries@, j);
                }
                if self@.contains_key(k) {
                    let j = choose|j: int| 0 <= j < entries@.len() && entries@[j].0@ == k;
                    lemma_entry_in_map(values@, j);
                }
            }
            assert(entries_map(values@).dom() =~= self@.dom());
            assert forall|k: Seq<char>| #[trigger] self@.contains_key(k) implies tags(entries_map(values@)[k], self@[k]) by {
                let j = choose|j: int| 0 <= j < entries@.len() && entries@[j].0@ == k;
                lemma_entry_in_map(values@, j);
                lemma_entry_in_map(entries@, j);
            }
        }
        let class = match self.get_class() {
            Some(c) => Some(c.clone()),
            None => None,
        };
        ContainerRecord { class, values }
    }

    /// Rebuild a container from its serialized form, storing the entries in
    /// order.
    ///
    /// Fails with the error of the first entry that does not decode.
    pub fn from_record(rec: &ContainerRecord) -> (r: Result<AttributeContainer, RuleError>)
        ensures
            r is Ok <==> decode_entries(rec.values@) is Ok,
            r matches Ok(c) ==> c.wf() && Ok::<Map<Seq<char>, Value>, RuleError>(c@) == decode_entries(rec.values@)
                && c.class_view() == (match rec.class {
                    Some(s) => Some(s@),
                    None => None::<Seq<char>>,
                }),
            r matches Err(e) ==> decode_entries(rec.values@) == Err::<Map<Seq<char>, Value>, RuleError>(e),
    {
        let mut c = match &rec.class {
            Some(s) => AttributeContainer::new_with_class(s.clone()),
            None => AttributeContainer::new(),
        };
        let mut i: usize = 0;
        assert(rec.values@.take(0) =~= Seq::<(String, TaggedValue)>::empty());
        while i < rec.values.len()
            invariant
                i <= rec.values@.len(),
                c.wf(),
                decode_entries(rec.values@.take(i as int)) == Ok::<Map<Seq<char>, Value>, RuleError>(c@),
                c.class_view() == (match rec.class {
                    Some(s) => Some(s@),
                    None => None::<Seq<char>>,
                }),
            decreases rec.values@.len() - i,
        {
            proof {
                assert(rec.values@.take(i + 1).drop_last() =~= rec.values@.take(i as int));
                assert(rec.values@.take(i + 1).last() == rec.values@[i as int]);
            }
            let v = from_tagged(&rec.values[i].1);
            match v {
                Ok(v) => {
                    c.store(rec.values[i].0.clone(), v);
                },
                Err(e) => {
                    proof {
                        lemma_decode_entries_stops(rec.values@, i + 1, rec.values@.len() as int);
                        assert(rec.values@.take(rec.values@.len() as int) =~= rec.values@);
                    }
                    return Err(e);
                },
            }
            i += 1;
        }
        proof {
            assert(rec.values@.take(rec.values@.len() as int) =~= rec.values@);
        }
        Ok(c)
    }
}

proof fn lemma_decode_entries_stops(entries: Seq<(String, TaggedValue)>, i: int, k: int)
    requires
        0 <= i <= k <= entries.len(),
        decode_entries(entries.take(i)) is Err,
    ensures
        decode_entries(entries.take(k)) == decode_entries(entries.take(i)),
    decreases k - i,
{
    if k > i {
        lemma_decode_entries_stops(entries, i, k - 1);
        assert(entries.take(k).drop_last() =~= entries.take(k - 1));
    }
}

/// Rebuilding a container from its serialized form gives back the same
/// attributes, values and class: `rec` is what `to_record` makes of `c`, and
/// `from_record` builds a container whose values are `decode_entries` of it.
pub proof fn law_record_round_trip(c: AttributeContainer, rec: ContainerRecord)
    requires
        c.wf(),
        encodes(rec, c),
    ensures
        decode_entries(rec.values@) == Ok::<Map<Seq<char>, Value>, RuleError>(c@),
        c.class_view() == (match rec.class {
            Some(s) => Some(s@),
            None => None::<Seq<char>>,
        }),
{
    lemma_decode_entries_ok(rec.values@, c@);
}


/// The serialized form of a pool: each container's handle number with its
/// record, in the order the containers were created. Indexes are not part of
/// it: they are registered anew on the pool that is rebuilt.
#[derive(Debug)]
pub struct PoolRecord {
    pub containers: Vec<(u64, ContainerRecord)>,
}

/// The container values of a pool record, each container decoded and added in
/// order, or the error of the first entry that fails: an entry that does not
/// decode, a handle number seen before, or one that no counter can mint.
pub open spec fn decode_pool(entries: Seq<(u64, ContainerRecord)>) -> Result<Map<Handle, Map<Seq<char>, Value>>, RuleError>
    decreases entries.len(),
{
    if entries.len() == 0 {
        Ok(Map::empty())
    } else {
        let (id, rec) = entries.last();
        let h = Handle::from_id_spec(id);
        match decode_pool(entries.drop_last()) {
            Err(e) => Err(e),
            Ok(m) => match decode_entries(rec.values@) {
                Err(e) => Err(e),
                Ok(values) => if m.contains_key(h) {
                    Err(RuleError::DuplicateHandle { handle: h })
                } else if id == u64::MAX {
                    Err(RuleError::ForeignHandle { handle: h })
                } else {
                    Ok(m.insert(h, values))
                },
            },
        }
    }
}

pub proof fn lemma_decode_pool_stops(entries: Seq<(u64, ContainerRecord)>, i: int, k: int)
    requires
        0 <= i <= k <= entries.len(),
        decode_pool(entries.take(i)) is Err,
    ensures
        decode_pool(entries.take(k)) == decode_pool(entries.take(i)),
    decreases k - i,
{
    if k > i {
        lemma_decode_pool_stops(entries, i, k - 1);
        assert(entries.take(k).drop_last() =~= entries.take(k - 1));
    }
}

/// A pool record whose handle numbers are distinct and mintable, and whose
/// container records each decode, decodes to the map from each handle to its
/// container's values.
pub proof fn lemma_decode_pool_ok(entries: Seq<(u64, ContainerRecord)>, m: Map<Handle, Map<Seq<char>, Value>>)
    requires
        forall|i: int, j: int| 0 <= i < entries.len() && 0 <= j < entries.len() && i != j ==> entries[i].0 != entries[j].0,
        forall|i: int| 0 <= i < entries.len() ==> (#[trigger] entries[i]).0 < u64::MAX,
        forall|i: int| 0 <= i < entries.len() ==> m.contains_key(Handle::from_id_spec((#[trigger] entries[i]).0))
            && decode_entries(entries[i].1.values@) == Ok::<Map<Seq<char>, Value>, RuleError>(
                m[Handle::from_id_spec(entries[i].0)],
            ),
        forall|h: Handle| #[trigger] m.contains_key(h) ==> exists|i: int| 0 <= i < entries.len() && entries[i].0 == h.id(),
    ensures
        decode_pool(entries) == Ok::<Map<Handle, Map<Seq<char>, Value>>, RuleError>(m),
    decreases entries.len(),
{
    if entries.len() == 0 {
        assert(m =~= Map::<Handle, Map<Seq<char>, Value>>::empty());
    } else {
        let prefix = entries.drop_last();
        let n = entries.len() - 1;
        let (id, rec) = entries.last();
        assert(entries.last() == entries[n]);
        let h = Handle::from_id_spec(id);
        Handle::lemma_from_id_spec(h);
        let pm = m.remove(h);
        assert forall|i: int| 0 <= i < prefix.len() implies pm.contains_key(Handle::from_id_spec((#[trigger] prefix[i]).0))
            && decode_entries(prefix[i].1.values@) == Ok::<Map<Seq<char>, Value>, RuleError>(
                pm[Handle::from_id_spec(prefix[i].0)],
            ) by {
            assert(prefix[i] == entries[i]);
            Handle::lemma_from_id_spec(Handle::from_id_spec(prefix[i].0));
            assert(Handle::from_id_spec(prefix[i].0) != h);
        }
        assert forall|g: Handle| #[trigger] pm.contains_key(g) implies exists|i: int| 0 <= i < prefix.len() && prefix[i].0 == g.id() by {
            let i = choose|i: int| 0 <= i < entries.len() && entries[i].0 == g.id();
            Handle::lemma_from_id_spec(g);
            assert(i != n);
            assert(prefix[i] == entries[i]);
        }
        assert forall|i: int| 0 <= i < prefix.len() implies (#[trigger] prefix[i]).0 < u64::MAX by {
            assert(prefix[i] == entries[i]);
        }
        assert forall|i: int, j: int| 0 <= i < prefix.len() && 0 <= j < prefix.len() && i != j implies prefix[i].0 != prefix[j].0 by {
            assert(prefix[i] == entries[i] && prefix[j] == entries[j]);
        }
        lemma_decode_pool_ok(prefix, pm);
        assert(!pm.contains_key(h));
        assert(pm.insert(h, m[h]) =~= m);
    }
}

} // verus!
