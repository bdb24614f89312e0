//! The generic bencode value tree that a descriptor is decoded from.
//!
//! A parsed blob is one of four shapes: a byte string, an integer, a list of
//! values, or a dictionary mapping byte-string keys to values.  [`Bvalue`]
//! holds such a tree; [`BvalueV`] is its mathematical counterpart used in
//! contracts.

use vstd::prelude::*;

verus! {

/// One node of a bencode value tree.
pub enum Bvalue {
    /// A raw byte string, not necessarily valid UTF-8.
    Bytes(Vec<u8>),
    /// A signed integer.
    Int(i64),
    /// An ordered list of values.
    List(Vec<Bvalue>),
    /// An ordered dictionary of byte-string keys and values; lookups take the
    /// first entry whose key matches.
    Dict(Vec<(Vec<u8>, Bvalue)>),
}

/// The mathematical shape of a [`Bvalue`].
pub enum BvalueV {
    Bytes(Seq<u8>),
    Int(int),
    List(Seq<BvalueV>),
    Dict(Seq<(Seq<u8>, BvalueV)>),
}

/// The mathematical contents of a list node's elements.
pub open spec fn list_view(l: &Vec<Bvalue>) -> Seq<BvalueV> {
    Seq::new(l@.len(), |i: int| l@[i]@)
}

/// The mathematical contents of a dictionary node's entries, in order.
pub open spec fn dict_view(d: &Vec<(Vec<u8>, Bvalue)>) -> Seq<(Seq<u8>, BvalueV)> {
    Seq::new(d@.len(), |i: int| (d@[i].0@, d@[i].1@))
}

/// The mathematical shape of a [`Bvalue`], written as a standalone recursion
/// so that its termination measure is the value itself.
pub open spec fn bvalue_view(v: Bvalue) -> BvalueV
    decreases v,
{
    match v {
        Bvalue::Bytes(s) => BvalueV::Bytes(s@),
        Bvalue::Int(n) => BvalueV::Int(n as int),
        Bvalue::List(l) => BvalueV::List(
            Seq::new(
                l@.len(),
                |i: int|
                    if 0 <= i < l@.len() {
                        proof {
                            assert(decreases_to!(v => l));
                            assert(decreases_to!(l => l@));
                            assert(decreases_to!(l@ => l@[i]));
                        }
                        bvalue_view(l@[i])
                    } else {
                        BvalueV::Int(0)
                    },
            ),
        ),
        Bvalue::Dict(d) => BvalueV::Dict(
            Seq::new(
                d@.len(),
                |i: int|
                    if 0 <= i < d@.len() {
                        proof {
                            assert(decreases_to!(v => d));
                            assert(decreases_to!(d => d@));
                            assert(decreases_to!(d@ => d@[i]));
                            assert(decreases_to!(d@[i] => d@[i].1));
                        }
                        (d@[i].0@, bvalue_view(d@[i].1))
                    } else {
                        (Seq::empty(), BvalueV::Int(0))
                    },
            ),
        ),
    }
}

impl View for Bvalue {
    type V = BvalueV;

    open spec fn view(&self) -> BvalueV {
        bvalue_view(*self)
    }
}

impl DeepView for Bvalue {
    type V = BvalueV;

    open spec fn deep_view(&self) -> BvalueV {
        self.view()
    }
}

pub(crate) proof fn lemma_view_list(l: Vec<Bvalue>)
    ensures
        bvalue_view(Bvalue::List(l)) == BvalueV::List(list_view(&l)),
{
    let s = bvalue_view(Bvalue::List(l))->List_0;
    assert(s =~= list_view(&l));
}

pub(crate) proof fn lemma_view_dict(d: Vec<(Vec<u8>, Bvalue)>)
    ensures
        bvalue_view(Bvalue::Dict(d)) == BvalueV::Dict(dict_view(&d)),
{
    let s = bvalue_view(Bvalue::Dict(d))->Dict_0;
    assert(s =~= dict_view(&d));
}

/// After a push, the element-wise mathematical contents of a vector are the
/// old contents extended by the new element's.
pub(crate) proof fn lemma_deep_push<T: DeepView>(v: &Vec<T>, pre: Seq<T>, pre_dv: Seq<T::V>, x: T)
    requires
        v@ == pre.push(x),
        pre_dv.len() == pre.len(),
        forall|i: int| 0 <= i < pre.len() ==> pre_dv[i] == #[trigger] pre[i].deep_view(),
    ensures
        v.deep_view() == pre_dv.push(x.deep_view()),
{
    assert forall|i: int| 0 <= i < v.deep_view().len() implies v.deep_view()[i] == pre_dv.push(
        x.deep_view(),
    )[i] by {
        if i < pre.len() {
            assert(v@[i] == pre[i]);
        } else {
            assert(v@[i] == x);
        }
    }
    assert(v.deep_view() =~= pre_dv.push(x.deep_view()));
}

/// Looks a key up among dictionary entries: the value of the first entry
/// whose key equals `k`, if any.
pub open spec fn dict_get(d: Seq<(Seq<u8>, BvalueV)>, k: Seq<u8>) -> Option<BvalueV>
    decreases d.len(),
{
    if d.len() == 0 {
        None
    } else if d[0].0 == k {
        Some(d[0].1)
    } else {
        dict_get(d.drop_first(), k)
    }
}

pub(crate) proof fn lemma_dict_get_found(d: Seq<(Seq<u8>, BvalueV)>, k: Seq<u8>, i: int)
    requires
        0 <= i < d.len(),
        d[i].0 == k,
        forall|j: int| 0 <= j < i ==> #[trigger] d[j].0 != k,
    ensures
        dict_get(d, k) == Some(d[i].1),
    decreases i,
{
    if i > 0 {
        assert(d[0].0 != k);
        assert forall|j: int| 0 <= j < i - 1 implies #[trigger] d.drop_first()[j].0 != k by {
            assert(d.drop_first()[j] == d[j + 1]);
        }
        lemma_dict_get_found(d.drop_first(), k, i - 1);
    }
}

pub(crate) proof fn lemma_dict_get_absent(d: Seq<(Seq<u8>, BvalueV)>, k: Seq<u8>)
    requires
        forall|j: int| 0 <= j < d.len() ==> #[trigger] d[j].0 != k,
    ensures
        dict_get(d, k) is None,
    decreases d.len(),
{
    if d.len() > 0 {
        assert(d[0].0 != k);
        assert forall|j: int| 0 <= j < d.len() - 1 implies #[trigger] d.drop_first()[j].0 != k by {
            assert(d.drop_first()[j] == d[j + 1]);
        }
        lemma_dict_get_absent(d.drop_first(), k);
    }
}

/// Applies a fallible mapping to every element in order; the first failure
/// aborts the whole mapping with that failure.
pub open spec fn try_map<A, B, E>(s: Seq<A>, f: spec_fn(A) -> Result<B, E>) -> Result<Seq<B>, E>
    decreases s.len(),
{
    if s.len() == 0 {
        Ok(Seq::empty())
    } else {
        match f(s[0]) {
            Ok(b) => match try_map(s.drop_first(), f) {
                Ok(rest) => Ok(seq![b] + rest),
                Err(e) => Err(e),
            },
            Err(e) => Err(e),
        }
    }
}

pub(crate) proof fn lemma_try_map_ok<A, B, E>(s: Seq<A>, f: spec_fn(A) -> Result<B, E>, r: Seq<B>)
    requires
        r.len() == s.len(),
        forall|j: int| 0 <= j < s.len() ==> #[trigger] f(s[j]) == Ok::<B, E>(r[j]),
    ensures
        try_map(s, f) == Ok::<Seq<B>, E>(r),
    decreases s.len(),
{
    if s.len() == 0 {
        assert(r =~= Seq::<B>::empty());
    } else {
        assert forall|j: int| 0 <= j < s.drop_first().len() implies #[trigger] f(
            s.drop_first()[j],
        ) == Ok::<B, E>(r.drop_first()[j]) by {
            assert(s.drop_first()[j] == s[j + 1]);
            assert(r.drop_first()[j] == r[j + 1]);
        }
        lemma_try_map_ok(s.drop_first(), f, r.drop_first());
        assert(f(s[0]) == Ok::<B, E>(r[0]));
        assert(seq![r[0]] + r.drop_first() =~= r);
    }
}

pub(crate) proof fn lemma_try_map_err<A, B, E>(s: Seq<A>, f: spec_fn(A) -> Result<B, E>, i: int)
    requires
        0 <= i < s.len(),
        forall|j: int| 0 <= j < i ==> (#[trigger] f(s[j])) is Ok,
        f(s[i]) is Err,
    ensures
        f(s[i]) matches Err(e) ==> try_map(s, f) == Err::<Seq<B>, E>(e),
    decreases i,
{
    if i > 0 {
        assert(f(s[0]) is Ok);
        assert forall|j: int| 0 <= j < i - 1 implies (#[trigger] f(s.drop_first()[j])) is Ok by {
            assert(s.drop_first()[j] == s[j + 1]);
        }
        assert(s.drop_first()[i - 1] == s[i]);
        lemma_try_map_err(s.drop_first(), f, i - 1);
    }
}

/// Byte-for-byte equality of two slices.
pub(crate) fn bytes_eq(a: &[u8], b: &[u8]) -> (r: bool)
    ensures
        r == (a@ == b@),
{
    if a.len() != b.len() {
        return false;
    }
    let mut i: usize = 0;
    while i < a.len()
        invariant
            a@.len() == b@.len(),
            i <= a@.len(),
            forall|j: int| 0 <= j < i ==> a@[j] == b@[j],
        decreases a@.len() - i,
    {
        if a[i] != b[i] {
            return false;
        }
        i += 1;
    }
    proof {
        assert(a@ =~= b@);
    }
    true
}

/// Finds the first dictionary entry whose key matches `k`, as
/// [`dict_get`] describes.
pub(crate) fn dict_find<'a>(d: &'a Vec<(Vec<u8>, Bvalue)>, k: &[u8]) -> (r: Option<&'a Bvalue>)
    ensures
        match dict_get(dict_view(d), k@) {
            Some(v) => r matches Some(b) && b@ == v,
            None => r is None,
        },
{
    let mut i: usize = 0;
    while i < d.len()
        invariant
            i <= d@.len(),
            forall|j: int| 0 <= j < i ==> #[trigger] dict_view(d)[j].0 != k@,
        decreases d@.len() - i,
    {
        if bytes_eq(d[i].0.as_slice(), k) {
            proof {
                lemma_dict_get_found(dict_view(d), k@, i as int);
            }
            return Some(&d[i].1);
        }
        i += 1;
    }
    proof {
        lemma_dict_get_absent(dict_view(d), k@);
    }
    None
}

} // verus!
