//! Structured attribute blobs attached to entities.
//!
//! An attribute blob is either a record of key/value fields (the usual case,
//! a JSON object at the storage boundary) or an opaque non-record value kept
//! as raw text. On a repeated upsert the records are merged field by field:
//! an existing non-null field survives when the incoming value for the same
//! key is null, every other incoming field overwrites, and fields only
//! present on the existing record are kept.

use vstd::prelude::*;

use crate::text::string_eq;

verus! {

/// One field of an attribute record; `None` stands for an explicit null.
#[derive(Debug)]
pub struct AttrEntry {
    pub key: String,
    pub value: Option<String>,
}

/// An attribute blob: a key/value record, or an opaque non-record value.
#[derive(Debug)]
pub enum Attributes {
    Record(Vec<AttrEntry>),
    Raw(String),
}

/// Spec-level value of one attribute field: key and optional value text.
pub type AttrPair = (Seq<char>, Option<Seq<char>>);

impl View for AttrEntry {
    type V = AttrPair;

    open spec fn view(&self) -> AttrPair {
        (self.key@, match self.value {
            Some(ref v) => Some(v@),
            None => None,
        })
    }
}

/// Spec-level value of an attribute blob.
pub enum AttrsView {
    Missing,
    Record(Seq<AttrPair>),
    Raw(Seq<char>),
}

pub open spec fn rec_view(s: Seq<AttrEntry>) -> Seq<AttrPair> {
    Seq::new(s.len(), |i: int| s[i]@)
}

pub open spec fn attrs_view(a: Option<Attributes>) -> AttrsView {
    match a {
        None => AttrsView::Missing,
        Some(Attributes::Record(r)) => AttrsView::Record(rec_view(r@)),
        Some(Attributes::Raw(t)) => AttrsView::Raw(t@),
    }
}

/// First index holding `key` in a record, if any.
pub open spec fn spec_find_key(s: Seq<AttrPair>, key: Seq<char>) -> Option<int>
    decreases s.len(),
{
    if s.len() == 0 {
        None
    } else if s[0].0 == key {
        Some(0int)
    } else {
        match spec_find_key(s.skip(1), key) {
            Some(i) => Some(i + 1),
            None => None,
        }
    }
}

pub proof fn lemma_spec_find_key(s: Seq<AttrPair>, key: Seq<char>)
    ensures
        match spec_find_key(s, key) {
            Some(i) => 0 <= i < s.len() && s[i].0 == key && forall|j: int|
                0 <= j < i ==> s[j].0 != key,
            None => forall|j: int| 0 <= j < s.len() ==> s[j].0 != key,
        },
    decreases s.len(),
{
    if s.len() > 0 {
        lemma_spec_find_key(s.skip(1), key);
        assert(forall|j: int| 1 <= j < s.len() ==> s[j] == s.skip(1)[j - 1]);
    }
}

/// One incoming field applied to an existing record: an existing non-null
/// value survives an incoming null on the same key; anything else
/// overwrites; a fresh key is appended.
pub open spec fn spec_apply_field(old_r: Seq<AttrPair>, f: AttrPair) -> Seq<AttrPair> {
    match spec_find_key(old_r, f.0) {
        Some(i) => {
            if f.1 is Some {
                old_r.update(i, f)
            } else if old_r[i].1 is Some {
                old_r
            } else {
                old_r.update(i, f)
            }
        },
        None => old_r.push(f),
    }
}

/// Field-by-field merge of an incoming record into an existing one.
pub open spec fn spec_merge_records(old_r: Seq<AttrPair>, new_r: Seq<AttrPair>) -> Seq<AttrPair>
    decreases new_r.len(),
{
    if new_r.len() == 0 {
        old_r
    } else {
        spec_merge_records(spec_apply_field(old_r, new_r[0]), new_r.skip(1))
    }
}

/// Merge of attribute blobs on upsert: a missing side yields the other; two
/// records merge field by field; any other combination is overwritten by the
/// incoming blob.
pub open spec fn spec_merge_attrs(old_a: AttrsView, new_a: AttrsView) -> AttrsView {
    match new_a {
        AttrsView::Missing => old_a,
        AttrsView::Record(n) => match old_a {
            AttrsView::Record(o) => AttrsView::Record(spec_merge_records(o, n)),
            _ => AttrsView::Record(n),
        },
        AttrsView::Raw(t) => AttrsView::Raw(t),
    }
}

/// Copy an optional string.
pub fn copy_opt_string(s: &Option<String>) -> (r: Option<String>)
    ensures
        match s {
            Some(v) => r is Some && r->0@ == v@,
            None => r is None,
        },
{
    match s {
        Some(v) => Some(v.clone()),
        None => None,
    }
}

/// Copy one attribute field.
pub fn copy_attr_entry(e: &AttrEntry) -> (r: AttrEntry)
    ensures
        r@ == e@,
{
    AttrEntry { key: e.key.clone(), value: copy_opt_string(&e.value) }
}

/// Copy an attribute record.
pub fn copy_attr_record(v: &Vec<AttrEntry>) -> (r: Vec<AttrEntry>)
    ensures
        rec_view(r@) == rec_view(v@),
{
    let mut r: Vec<AttrEntry> = Vec::new();
    let mut i: usize = 0;
    while i < v.len()
        invariant
            i <= v@.len(),
            r@.len() == i,
            rec_view(r@) == rec_view(v@.subrange(0, i as int)),
        decreases v@.len() - i,
    {
        let ghost pre = r@;
        r.push(copy_attr_entry(&v[i]));
        i = i + 1;
        proof {
            assert forall|j: int| 0 <= j < i implies rec_view(r@)[j] == rec_view(
                v@.subrange(0, i as int),
            )[j] by {
                if j < i - 1 {
                    assert(r@[j] == pre[j]);
                    assert(rec_view(pre)[j] == rec_view(v@.subrange(0, i - 1))[j]);
                    assert(v@.subrange(0, i - 1)[j] == v@[j]);
                    assert(v@.subrange(0, i as int)[j] == v@[j]);
                } else {
                    assert(r@[j]@ == v@[i - 1]@);
                    assert(v@.subrange(0, i as int)[j] == v@[j]);
                }
            }
            assert(rec_view(r@) =~= rec_view(v@.subrange(0, i as int)));
        }
    }
    proof {
        assert(v@.subrange(0, v@.len() as int) =~= v@);
    }
    r
}

/// Copy an attribute blob.
pub fn copy_attrs(a: &Option<Attributes>) -> (r: Option<Attributes>)
    ensures
        attrs_view(r) == attrs_view(*a),
{
    match a {
        None => None,
        Some(Attributes::Record(v)) => Some(Attributes::Record(copy_attr_record(v))),
        Some(Attributes::Raw(t)) => Some(Attributes::Raw(t.clone())),
    }
}

/// Find the first index holding `key` in a record.
pub fn find_key(v: &Vec<AttrEntry>, key: &String) -> (r: Option<usize>)
    ensures
        match r {
            Some(i) => i < v@.len() && spec_find_key(rec_view(v@), key@) == Some(i as int),
            None => spec_find_key(rec_view(v@), key@) is None,
        },
{
    proof {
        lemma_spec_find_key(rec_view(v@), key@);
    }
    let mut i: usize = 0;
    while i < v.len()
        invariant
            i <= v@.len(),
            forall|j: int| 0 <= j < i ==> rec_view(v@)[j].0 != key@,
        decreases v@.len() - i,
    {
        if string_eq(&v[i].key, key) {
            proof {
                assert(rec_view(v@)[i as int].0 == key@);
                lemma_find_key_unique(rec_view(v@), key@, i as int);
            }
            return Some(i);
        }
        proof {
            assert(rec_view(v@)[i as int].0 == v@[i as int].key@);
        }
        i = i + 1;
    }
    None
}

proof fn lemma_find_key_unique(s: Seq<AttrPair>, key: Seq<char>, i: int)
    requires
        0 <= i < s.len(),
        s[i].0 == key,
        forall|j: int| 0 <= j < i ==> s[j].0 != key,
    ensures
        spec_find_key(s, key) == Some(i),
{
    lemma_spec_find_key(s, key);
    match spec_find_key(s, key) {
        Some(k) => {
            if k < i {
                assert(s[k].0 == key);
            }
            if k > i {
                assert(s[i].0 != key);
            }
        },
        None => {
            assert(s[i].0 != key);
        },
    }
}

/// Merge an incoming record into an existing one, field by field.
pub fn merge_records(old_r: &Vec<AttrEntry>, new_r: &Vec<AttrEntry>) -> (r: Vec<AttrEntry>)
    ensures
        rec_view(r@) == spec_merge_records(rec_view(old_r@), rec_view(new_r@)),
{
    let mut acc = copy_attr_record(old_r);
    proof {
        assert(rec_view(new_r@).skip(0) =~= rec_view(new_r@));
    }
    let mut i: usize = 0;
    while i < new_r.len()
        invariant
            i <= new_r@.len(),
            spec_merge_records(rec_view(acc@), rec_view(new_r@).skip(i as int))
                == spec_merge_records(rec_view(old_r@), rec_view(new_r@)),
        decreases new_r@.len() - i,
    {
        let ghost pre = rec_view(acc@);
        let ghost rest = rec_view(new_r@).skip(i as int);
        let f = &new_r[i];
        proof {
            assert(rest[0] == rec_view(new_r@)[i as int]);
            assert(rest[0] == f@);
            assert(rest.skip(1) =~= rec_view(new_r@).skip(i + 1));
        }
        match find_key(&acc, &f.key) {
            Some(k) => {
                proof {
                    lemma_spec_find_key(pre, f@.0);
                }
                let overwrite = match (&f.value, &acc[k].value) {
                    (Some(_), _) => true,
                    (None, Some(_)) => false,
                    (None, None) => true,
                };
                if overwrite {
                    let fresh = copy_attr_entry(f);
                    acc.set(k, fresh);
                    proof {
                        assert(rec_view(acc@) =~= pre.update(k as int, f@));
                    }
                } else {
                    proof {
                        assert(rec_view(acc@) =~= spec_apply_field(pre, f@));
                    }
                }
            },
            None => {
                acc.push(copy_attr_entry(f));
                proof {
                    assert(rec_view(acc@) =~= pre.push(f@));
                }
            },
        }
        proof {
            assert(rec_view(acc@) =~= spec_apply_field(pre, rest[0]));
        }
        i = i + 1;
    }
    proof {
        assert(rec_view(new_r@).skip(new_r@.len() as int) =~= Seq::<AttrPair>::empty());
    }
    acc
}

/// Merge attribute blobs as an upsert does.
pub fn merge_attributes(old_a: &Option<Attributes>, new_a: &Option<Attributes>) -> (r: Option<
    Attributes,
>)
    ensures
        attrs_view(r) == spec_merge_attrs(attrs_view(*old_a), attrs_view(*new_a)),
{
    match new_a {
        None => copy_attrs(old_a),
        Some(Attributes::Raw(t)) => Some(Attributes::Raw(t.clone())),
        Some(Attributes::Record(n)) => match old_a {
            Some(Attributes::Record(o)) => Some(Attributes::Record(merge_records(o, n))),
            _ => Some(Attributes::Record(copy_attr_record(n))),
        },
    }
}

} // verus!
