//! The decoded bencode value tree and its mathematical model.
use vstd::prelude::*;

verus! {

broadcast use vstd::std_specs::vec::group_vec_axioms, vstd::seq::group_seq_axioms;

/// A decoded bencode value: a byte string, an integer, a list, or a
/// dictionary. A dictionary keeps its pairs in decode order; a lookup
/// returns the last binding of a key, so a later duplicate overwrites an
/// earlier one.
#[derive(Debug, PartialEq, Eq)]
pub enum Value {
    Bytes(Vec<u8>),
    Int(i64),
    List(Vec<Value>),
    Dict(Vec<(Vec<u8>, Value)>),
}

/// The mathematical model of a bencode value, which the contracts speak of.
pub enum BValue {
    Bytes(Seq<u8>),
    Int(int),
    List(Seq<BValue>),
    Dict(Seq<(Seq<u8>, BValue)>),
}

impl Value {
    /// The model of this value.
    pub open spec fn bview(self) -> BValue
        decreases self,
    {
        match self {
            Value::Bytes(b) => BValue::Bytes(b@),
            Value::Int(i) => BValue::Int(i as int),
            // The range guards keep the recursion inside the vector, which
            // the termination check needs; out of range the entry is never
            // read.
            Value::List(vs) => BValue::List(
                Seq::new(
                    vs@.len(),
                    |i: int|
                        if 0 <= i < vs@.len() {
                            vs[i].bview()
                        } else {
                            BValue::Int(0)
                        },
                ),
            ),
            Value::Dict(ps) => BValue::Dict(
                Seq::new(
                    ps@.len(),
                    |i: int|
                        if 0 <= i < ps@.len() {
                            (ps[i].0@, ps[i].1.bview())
                        } else {
                            (Seq::empty(), BValue::Int(0))
                        },
                ),
            ),
        }
    }
}

/// The models of the elements of a list.
pub open spec fn elems_view(vs: Seq<Value>) -> Seq<BValue> {
    Seq::new(vs.len(), |i: int| vs[i].bview())
}

/// The models of the pairs of a dictionary.
pub open spec fn pairs_view(ps: Seq<(Vec<u8>, Value)>) -> Seq<(Seq<u8>, BValue)> {
    Seq::new(ps.len(), |i: int| (ps[i].0@, ps[i].1.bview()))
}

pub broadcast proof fn lemma_bview_list(vs: Vec<Value>)
    ensures
        #[trigger] Value::List(vs).bview() == BValue::List(elems_view(vs@)),
{
    assert(Value::List(vs).bview()->List_0 =~= elems_view(vs@));
}

pub broadcast proof fn lemma_bview_dict(ps: Vec<(Vec<u8>, Value)>)
    ensures
        #[trigger] Value::Dict(ps).bview() == BValue::Dict(pairs_view(ps@)),
{
    assert(Value::Dict(ps).bview()->Dict_0 =~= pairs_view(ps@));
}

/// The binding a dictionary gives to a key: the last pair with that key,
/// if any.
pub open spec fn dict_lookup(pairs: Seq<(Seq<u8>, BValue)>, key: Seq<u8>) -> Option<BValue>
    decreases pairs.len(),
{
    if pairs.len() == 0 {
        None
    } else if pairs.last().0 == key {
        Some(pairs.last().1)
    } else {
        dict_lookup(pairs.drop_last(), key)
    }
}

/// A later pair with the same key overwrites the earlier binding: the
/// lookup returns the value pushed last.
pub proof fn lemma_dict_lookup_push_same(
    pairs: Seq<(Seq<u8>, BValue)>,
    added: (Seq<u8>, BValue),
    key: Seq<u8>,
)
    requires
        added.0 == key,
    ensures
        dict_lookup(pairs.push(added), key) == Some(added.1),
{
}

/// A pair whose key is some other key leaves every lookup unchanged.
pub proof fn lemma_dict_lookup_push_other(
    pairs: Seq<(Seq<u8>, BValue)>,
    added: (Seq<u8>, BValue),
    key: Seq<u8>,
)
    requires
        added.0 != key,
    ensures
        dict_lookup(pairs.push(added), key) == dict_lookup(pairs, key),
{
    assert(pairs.push(added).drop_last() =~= pairs);
}

/// Whether two byte strings hold the same bytes.
pub fn bytes_eq(a: &[u8], b: &[u8]) -> (r: bool)
    ensures
        r == (a@ == b@),
{
    if a.len() != b.len() {
        assert(a@ != b@) by {
            assert(a@.len() != b@.len());
        }
        return false;
    }
    let n = a.len();
    let mut i: usize = 0;
    while i < n
        invariant
            n == a@.len() == b@.len(),
            i <= n,
            forall|k: int| 0 <= k < i ==> a@[k] == b@[k],
        decreases n - i,
    {
        if a[i] != b[i] {
            return false;
        }
        i += 1;
    }
    assert(a@ =~= b@);
    true
}

/// The value a dictionary binds a key to: the last pair with that key.
pub fn dict_get<'a>(pairs: &'a Vec<(Vec<u8>, Value)>, key: &[u8]) -> (r: Option<&'a Value>)
    ensures
        match dict_lookup(pairs_view(pairs@), key@) {
            Some(bv) => r is Some && r->Some_0.bview() == bv,
            None => r is None,
        },
{
    let ghost full = pairs_view(pairs@);
    let mut i: usize = pairs.len();
    assert(full.take(i as int) =~= full);
    while i > 0
        invariant
            i <= pairs@.len(),
            full == pairs_view(pairs@),
            dict_lookup(full, key@) == dict_lookup(full.take(i as int), key@),
        decreases i,
    {
        i -= 1;
        if bytes_eq(pairs[i].0.as_slice(), key) {
            assert(full.take(i as int + 1).last() == full[i as int]);
            return Some(&pairs[i].1);
        }
        assert(full.take(i as int + 1).drop_last() =~= full.take(i as int));
    }
    assert(full.take(0) =~= Seq::<(Seq<u8>, BValue)>::empty());
    None
}

} // verus!
