//! The tree that a parse produces, and its mathematical model.

use vstd::prelude::*;

verus! {

/// The mathematical value of a [`JsonValue`].
///
/// A string is the sequence of its characters as written between the
/// quotes, a number is the bit pattern of its double, an object is a
/// finite mapping from keys to values.
pub enum Json {
    Str(Seq<char>),
    Boolean(bool),
    Null,
    Num(u64),
    Array(Seq<Json>),
    Object(Map<Seq<char>, Json>),
}

/// A parsed value.
///
/// `Str` holds the raw text of a string literal: escape sequences are kept
/// as they were written. `Num` holds the IEEE 754 bit pattern of a double.
/// `Object` lists its members; where a key stands twice, the later member
/// is the one that counts.
#[derive(Debug, PartialEq)]
pub enum JsonValue {
    Str(String),
    Boolean(bool),
    Null,
    Num(u64),
    Array(Vec<JsonValue>),
    Object(Vec<(String, JsonValue)>),
}

/// Whether `bits` is the bit pattern of a finite double: its exponent
/// field is not all ones.
pub open spec fn is_finite_bits(bits: u64) -> bool {
    (bits >> 52) & 0x7ff != 0x7ff
}

/// The values of a list of items.
pub open spec fn items_view(items: Seq<JsonValue>) -> Seq<Json>
    decreases items, 1int,
{
    Seq::new(
        items.len(),
        |k: int|
            if 0 <= k < items.len() {
                items[k].model()
            } else {
                Json::Null
            },
    )
}

/// The mapping that the first `n` members of a member list stand for: each
/// member in turn is written into the mapping, so that of two members with
/// one key the later stays.
pub open spec fn members_map(members: Seq<(String, JsonValue)>, n: int) -> Map<Seq<char>, Json>
    decreases members, n,
{
    if 0 < n <= members.len() {
        members_map(members, n - 1).insert(members[n - 1].0@, members[n - 1].1.model())
    } else {
        Map::empty()
    }
}

/// Whether no key stands twice in a member list.
pub open spec fn distinct_keys(members: Seq<(String, JsonValue)>) -> bool {
    forall|a: int, b: int|
        0 <= a < b < members.len() ==> (#[trigger] members[a]).0@ != (#[trigger] members[b]).0@
}

impl View for JsonValue {
    type V = Json;

    open spec fn view(&self) -> Json {
        self.model()
    }
}

impl JsonValue {
    /// The mathematical value: strings by their characters, arrays by the
    /// values of their items, objects by the mapping of their members.
    pub open spec fn model(&self) -> Json
        decreases self, 0int,
    {
        match self {
            JsonValue::Str(s) => Json::Str(s@),
            JsonValue::Boolean(b) => Json::Boolean(*b),
            JsonValue::Null => Json::Null,
            JsonValue::Num(bits) => Json::Num(*bits),
            JsonValue::Array(items) => Json::Array(items_view(items@)),
            JsonValue::Object(members) => Json::Object(
                members_map(members@, members@.len() as int),
            ),
        }
    }

    /// What holds of every value that a parse hands out: each number is
    /// finite, and no object lists a key twice.
    pub open spec fn wf(&self) -> bool
        decreases self,
    {
        match self {
            JsonValue::Num(bits) => is_finite_bits(*bits),
            JsonValue::Array(items) => forall|k: int|
                0 <= k < items@.len() ==> (#[trigger] items@[k]).wf(),
            JsonValue::Object(members) => distinct_keys(members@) && forall|k: int|
                0 <= k < members@.len() ==> (#[trigger] members@[k]).1.wf(),
            _ => true,
        }
    }
}

/// Whether the value of each member of a list is well formed.
pub open spec fn members_wf(members: Seq<(String, JsonValue)>) -> bool {
    forall|k: int| 0 <= k < members.len() ==> (#[trigger] members[k]).1.wf()
}

/// Where no key stands twice, the mapping of a member list holds each of
/// its first `n` members, and nothing else.
pub proof fn lemma_members_map(members: Seq<(String, JsonValue)>, n: int)
    requires
        distinct_keys(members),
        0 <= n <= members.len(),
    ensures
        forall|k: int|
            0 <= k < n ==> {
                &&& members_map(members, n).contains_key((#[trigger] members[k]).0@)
                &&& members_map(members, n)[members[k].0@] == members[k].1.model()
            },
        forall|key: Seq<char>| #[trigger]
            members_map(members, n).contains_key(key) ==> exists|k: int|
                0 <= k < n && (#[trigger] members[k]).0@ == key,
    decreases n,
{
    if n > 0 {
        lemma_members_map(members, n - 1);
        let shorter = members_map(members, n - 1);
        let last = members[n - 1];
        assert forall|key: Seq<char>| #[trigger]
            members_map(members, n).contains_key(key) implies exists|k: int|
            0 <= k < n && (#[trigger] members[k]).0@ == key by {
            if key == last.0@ {
                assert(members[n - 1].0@ == key);
            } else {
                assert(shorter.contains_key(key));
                let k = choose|k: int| 0 <= k < n - 1 && (#[trigger] members[k]).0@ == key;
                assert(0 <= k < n && members[k].0@ == key);
            }
        }
    }
}

/// The mapping of a member list reads only the members that it counts.
pub proof fn lemma_members_map_prefix(
    a: Seq<(String, JsonValue)>,
    b: Seq<(String, JsonValue)>,
    n: int,
)
    requires
        0 <= n <= a.len(),
        n <= b.len(),
        forall|k: int| 0 <= k < n ==> a[k] == b[k],
    ensures
        members_map(a, n) == members_map(b, n),
    decreases n,
{
    if n > 0 {
        lemma_members_map_prefix(a, b, n - 1);
    }
}

/// Writes a member into a member list: where the key stands in the list
/// already, its value is replaced, else the member is added at the end.
#[verifier::loop_isolation(false)]
pub(crate) fn insert_member(members: &mut Vec<(String, JsonValue)>, key: String, value: JsonValue)
    requires
        distinct_keys(old(members)@),
    ensures
        distinct_keys(final(members)@),
        members_map(final(members)@, final(members)@.len() as int) == members_map(
            old(members)@,
            old(members)@.len() as int,
        ).insert(key@, value@),
        members_wf(old(members)@) && value.wf() ==> members_wf(final(members)@),
{
    let ghost before = members@;
    let ghost target = members_map(before, before.len() as int).insert(key@, value@);
    let n = members.len();
    let mut k: usize = 0;
    while k < n
        invariant
            k <= n == members@.len(),
            members@ == before,
            forall|j: int| 0 <= j < k ==> (#[trigger] before[j]).0@ != key@,
        decreases n - k,
    {
        if members[k].0 == key {
            members.set(k, (key, value));
            proof {
                let after = members@;
                assert(distinct_keys(after)) by {
                    assert forall|a: int, b: int| 0 <= a < b < after.len() implies (
                    #[trigger] after[a]).0@ != (#[trigger] after[b]).0@ by {
                        assert(after[a].0@ == before[a].0@);
                        assert(after[b].0@ == before[b].0@);
                    }
                }
                lemma_members_map(before, before.len() as int);
                lemma_members_map(after, after.len() as int);
                let got = members_map(after, after.len() as int);
                assert forall|q: Seq<char>| got.contains_key(q) == target.contains_key(
                    q,
                ) by {
                    if got.contains_key(q) {
                        let j = choose|j: int|
                            0 <= j < after.len() && (#[trigger] after[j]).0@ == q;
                        assert(before[j].0@ == q);
                    }
                    if target.contains_key(q) && q != key@ {
                        let j = choose|j: int|
                            0 <= j < before.len() && (#[trigger] before[j]).0@ == q;
                        assert(after[j].0@ == q);
                    }
                    if q == key@ {
                        assert(after[k as int].0@ == q);
                    }
                }
                assert forall|q: Seq<char>| got.contains_key(q) implies got[q] == target[q] by {
                    let j = choose|j: int| 0 <= j < after.len() && (#[trigger] after[j]).0@ == q;
                    if j == k {
                    } else {
                        assert(after[j] == before[j]);
                        assert(before[j].0@ != before[k as int].0@);
                    }
                }
                assert(got =~= target);
                if members_wf(before) && value.wf() {
                    assert forall|i: int| 0 <= i < after.len() implies (
                    #[trigger] after[i]).1.wf() by {
                        if i != k {
                            assert(before[i].1 == after[i].1);
                        }
                    }
                }
            }
            return ;
        }
        k = k + 1;
    }
    members.push((key, value));
    proof {
        let after = members@;
        assert(distinct_keys(after)) by {
            assert forall|a: int, b: int| 0 <= a < b < after.len() implies (#[trigger] after[a]).0@
                != (#[trigger] after[b]).0@ by {
                assert(after[a] == before[a]);
                if b < before.len() {
                    assert(after[b] == before[b]);
                }
            }
        }
        lemma_members_map_prefix(after, before, before.len() as int);
        if members_wf(before) && value.wf() {
            assert forall|i: int| 0 <= i < after.len() implies (#[trigger] after[i]).1.wf() by {
                if i < before.len() {
                    assert(before[i].1 == after[i].1);
                }
            }
        }
    }
}

impl JsonValue {
    /// Looks up a member of an object by its key: the value that the object
    /// maps the key to, and `None` where it has no such key or where the
    /// value is no object.
    #[verifier::loop_isolation(false)]
    pub fn get(&self, key: &str) -> (r: Option<&JsonValue>)
        ensures
            match self@ {
                Json::Object(map) => if map.contains_key(key@) {
                    r matches Some(v) && v@ == map[key@]
                } else {
                    r is None
                },
                _ => r is None,
            },
    {
        match self {
            JsonValue::Object(members) => {
                let wanted = key.to_owned();
                let mut k: usize = members.len();
                while k > 0
                    invariant
                        k <= members@.len(),
                        wanted@ == key@,
                        members_map(members@, members@.len() as int).contains_key(key@)
                            == members_map(members@, k as int).contains_key(key@),
                        members_map(members@, k as int).contains_key(key@) ==> members_map(
                            members@,
                            members@.len() as int,
                        )[key@] == members_map(members@, k as int)[key@],
                    decreases k,
                {
                    k = k - 1;
                    assert(members_map(members@, k + 1) == members_map(members@, k as int).insert(
                        members@[k as int].0@,
                        members@[k as int].1.model(),
                    ));
                    if members[k].0 == wanted {
                        return Some(&members[k].1);
                    }
                }
                None
            },
            _ => None,
        }
    }
}

} // verus!
