//! The per-element rewrite rule, on attribute lists.

use vstd::prelude::*;

verus! {

/// One attribute of an element: key and value as raw bytes, as they stand in
/// the document.
#[derive(Clone, Debug, PartialEq, Eq)]
pub struct Attr {
    pub key: Vec<u8>,
    pub value: Vec<u8>,
}

/// An attribute as a pair of byte sequences.
pub type AttrModel = (Seq<u8>, Seq<u8>);

impl Attr {
    pub open spec fn model(self) -> AttrModel {
        (self.key@, self.value@)
    }
}

/// The attributes of an element, in order.
pub open spec fn attrs_model(a: Seq<Attr>) -> Seq<AttrModel> {
    a.map_values(|x: Attr| x.model())
}

/// `inkscape:label`
pub open spec fn label_key() -> Seq<u8> {
    seq![105u8, 110, 107, 115, 99, 97, 112, 101, 58, 108, 97, 98, 101, 108]
}

/// `id`
pub open spec fn id_key() -> Seq<u8> {
    seq![105u8, 100]
}

/// `i` is the position of the first attribute keyed `inkscape:label`.
pub open spec fn is_first_label(s: Seq<AttrModel>, i: int) -> bool {
    &&& 0 <= i < s.len()
    &&& s[i].0 == label_key()
    &&& forall|j: int| 0 <= j < i ==> s[j].0 != label_key()
}

/// Some attribute is keyed `inkscape:label`.
pub open spec fn has_label(s: Seq<AttrModel>) -> bool {
    exists|i: int| 0 <= i < s.len() && s[i].0 == label_key()
}

/// The value of the first `inkscape:label` attribute, if there is one.
pub open spec fn label_value(s: Seq<AttrModel>) -> Option<Seq<u8>> {
    if exists|i: int| is_first_label(s, i) {
        Some(s[choose|i: int| is_first_label(s, i)].1)
    } else {
        None
    }
}

/// The attributes whose key is not `id`, in their order.
pub open spec fn without_id(s: Seq<AttrModel>) -> Seq<AttrModel> {
    s.filter(|p: AttrModel| p.0 != id_key())
}

/// The attribute list of an element after the rewrite rule: `None` where the
/// element has no label and stays as it is; otherwise every attribute but
/// `id`, followed by `id` set to the first label's value.
pub open spec fn rewritten(s: Seq<AttrModel>) -> Option<Seq<AttrModel>> {
    match label_value(s) {
        Some(v) => Some(without_id(s).push((id_key(), v))),
        None => None,
    }
}

proof fn lemma_first_label_unique(s: Seq<AttrModel>, i: int, j: int)
    requires
        is_first_label(s, i),
        is_first_label(s, j),
    ensures
        i == j,
{
}

proof fn lemma_label_value_at(s: Seq<AttrModel>, i: int)
    requires
        is_first_label(s, i),
    ensures
        label_value(s) == Some(s[i].1),
{
    let k = choose|k: int| is_first_label(s, k);
    lemma_first_label_unique(s, i, k);
}

proof fn lemma_label_below(s: Seq<AttrModel>, i: int)
    requires
        0 <= i < s.len(),
        s[i].0 == label_key(),
    ensures
        label_value(s) is Some,
    decreases i,
{
    if exists|j: int| 0 <= j < i && s[j].0 == label_key() {
        let j = choose|j: int| 0 <= j < i && s[j].0 == label_key();
        lemma_label_below(s, j);
    } else {
        lemma_label_value_at(s, i);
    }
}

/// An element with a label has a first one.
pub proof fn lemma_label_has_first(s: Seq<AttrModel>)
    requires
        has_label(s),
    ensures
        label_value(s) is Some,
{
    let i = choose|i: int| 0 <= i < s.len() && s[i].0 == label_key();
    lemma_label_below(s, i);
}

/// An element without any `inkscape:label` attribute is left as it is.
pub proof fn lemma_unlabelled_unchanged(s: Seq<AttrModel>)
    requires
        !has_label(s),
    ensures
        rewritten(s) is None,
{
}

/// The rewritten list keeps the first label, ends with `id` set to that
/// label's value, and holds no other `id`.
pub proof fn lemma_rewritten_ends_with_label(s: Seq<AttrModel>)
    requires
        has_label(s),
    ensures
        rewritten(s) is Some,
        rewritten(s)->0.contains((label_key(), label_value(s)->0)),
        rewritten(s)->0.last() == (id_key(), label_value(s)->0),
        forall|i: int|
            0 <= i < rewritten(s)->0.len() - 1 ==> (#[trigger] rewritten(s)->0[i]).0 != id_key(),
{
    broadcast use vstd::seq_lib::group_filter_ensures;

    lemma_label_has_first(s);
    let k = choose|k: int| is_first_label(s, k);
    let pred = |p: AttrModel| p.0 != id_key();
    assert(label_key()[0] == 105u8 && label_key()[1] == 110u8 && id_key()[1] == 100u8);
    assert(label_key() != id_key());
    assert(pred(s[k]));
    s.lemma_filter_contains(pred, k);
    let f = without_id(s);
    let r = f.push((id_key(), label_value(s)->0));
    assert(f.contains(s[k]));
    let m = choose|m: int| 0 <= m < f.len() && f[m] == s[k];
    assert(r[m] == s[k]);
    assert forall|i: int| 0 <= i < f.len() implies (#[trigger] f[i]).0 != id_key() by {
    }
}

fn bytes_equal(a: &Vec<u8>, b: &Vec<u8>) -> (r: bool)
    ensures
        r == (a@ == b@),
{
    if a.len() != b.len() {
        return false;
    }
    let mut i: usize = 0;
    while i < a.len()
        invariant
            a@.len() == b@.len(),
            0 <= i <= a@.len(),
            forall|j: int| 0 <= j < i ==> a@[j] == b@[j],
        decreases a@.len() - i,
    {
        if a[i] != b[i] {
            return false;
        }
        i = i + 1;
    }
    assert(a@ =~= b@);
    true
}

fn copy_bytes(v: &Vec<u8>) -> (r: Vec<u8>)
    ensures
        r@ == v@,
{
    let mut r: Vec<u8> = Vec::new();
    let mut i: usize = 0;
    while i < v.len()
        invariant
            0 <= i <= v@.len(),
            r@ == v@.subrange(0, i as int),
        decreases v@.len() - i,
    {
        r.push(v[i]);
        i = i + 1;
        assert(r@ =~= v@.subrange(0, i as int));
    }
    assert(r@ =~= v@);
    r
}

fn label_key_bytes() -> (r: Vec<u8>)
    ensures
        r@ == label_key(),
{
    let r: Vec<u8> = vec![105u8, 110, 107, 115, 99, 97, 112, 101, 58, 108, 97, 98, 101, 108];
    assert(r@ =~= label_key());
    r
}

fn id_key_bytes() -> (r: Vec<u8>)
    ensures
        r@ == id_key(),
{
    let r: Vec<u8> = vec![105u8, 100];
    assert(r@ =~= id_key());
    r
}

/// The value of the first attribute keyed `inkscape:label`, if any. Where
/// the key occurs more than once, the first occurrence wins.
pub fn find_label(attrs: &Vec<Attr>) -> (r: Option<Vec<u8>>)
    ensures
        r is Some <==> has_label(attrs_model(attrs@)),
        label_value(attrs_model(attrs@)) == match r {
            Some(v) => Some(v@),
            None => None::<Seq<u8>>,
        },
{
    let ghost s = attrs_model(attrs@);
    let key = label_key_bytes();
    let mut i: usize = 0;
    while i < attrs.len()
        invariant
            s == attrs_model(attrs@),
            key@ == label_key(),
            0 <= i <= attrs@.len(),
            forall|j: int| 0 <= j < i ==> s[j].0 != label_key(),
        decreases attrs@.len() - i,
    {
        if bytes_equal(&attrs[i].key, &key) {
            proof {
                lemma_label_value_at(s, i as int);
            }
            return Some(copy_bytes(&attrs[i].value));
        }
        i = i + 1;
    }
    assert(!has_label(s));
    assert(!exists|k: int| is_first_label(s, k));
    None
}

/// The rewrite rule on one element's attributes. `None` where no attribute is
/// keyed `inkscape:label`: the element is kept as it is. Otherwise every
/// attribute keyed `id` is dropped, the others keep their order, and a new
/// `id` whose value is the first label's value is appended last.
pub fn rewrite_attributes(attrs: &Vec<Attr>) -> (r: Option<Vec<Attr>>)
    ensures
        r is Some <==> has_label(attrs_model(attrs@)),
        rewritten(attrs_model(attrs@)) == match r {
            Some(v) => Some(attrs_model(v@)),
            None => None::<Seq<AttrModel>>,
        },
{
    let ghost s = attrs_model(attrs@);
    let label = match find_label(attrs) {
        Some(v) => v,
        None => {
            return None;
        },
    };
    let id = id_key_bytes();
    let mut out: Vec<Attr> = Vec::new();
    let mut i: usize = 0;
    while i < attrs.len()
        invariant
            s == attrs_model(attrs@),
            id@ == id_key(),
            0 <= i <= attrs@.len(),
            attrs_model(out@) == without_id(s.subrange(0, i as int)),
        decreases attrs@.len() - i,
    {
        let ghost pre = s.subrange(0, i as int);
        let ghost next = s.subrange(0, i as int + 1);
        assert(next.drop_last() =~= pre);
        assert(next.last() == s[i as int]);
        proof {
            reveal(Seq::filter);
        }
        if !bytes_equal(&attrs[i].key, &id) {
            let a = Attr { key: copy_bytes(&attrs[i].key), value: copy_bytes(&attrs[i].value) };
            out.push(a);
            assert(attrs_model(out@) =~= without_id(pre).push(s[i as int]));
        } else {
            assert(attrs_model(out@) =~= without_id(pre));
        }
        i = i + 1;
    }
    assert(s.subrange(0, attrs@.len() as int) =~= s);
    let ghost kept = attrs_model(out@);
    out.push(Attr { key: id, value: label });
    assert(attrs_model(out@) =~= kept.push((id_key(), label@)));
    Some(out)
}

} // verus!
