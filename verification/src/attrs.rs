//! Attribute values attached to tensors and archives, and their
//! type-length-value encoding.
use vstd::prelude::*;
use vstd::utf8::{encode_utf8, valid_utf8};
use vstd::string::StringSliceAdditionalSpecFns;
use crate::types::{AttrTypeId, TpxError, attr_type_code, unexpected_eof};
use crate::wire::{le16, le64, get16, get64, push16, push64, push_all, read16, read64, lemma_le_round_trips};
use crate::index::lex::{lex_lt, lex_less, bytes_equal, lemma_lex_order};

verus! {

/// The largest encoded attribute value, in bytes.
pub const MAX_ATTR_VALUE_SIZE: usize = 4096;

/// An attribute value. A 64-bit float is held as its IEEE-754 bit pattern.
#[derive(Clone, Debug, PartialEq)]
pub enum AttrValue {
    String(String),
    Int64(i64),
    Float64(u64),
    Bool(bool),
    Bytes(Vec<u8>),
}

pub open spec fn attr_type_of(v: AttrValue) -> AttrTypeId {
    match v {
        AttrValue::String(_) => AttrTypeId::String,
        AttrValue::Int64(_) => AttrTypeId::Int64,
        AttrValue::Float64(_) => AttrTypeId::Float64,
        AttrValue::Bool(_) => AttrTypeId::Bool,
        AttrValue::Bytes(_) => AttrTypeId::Bytes,
    }
}

impl AttrValue {
    pub fn type_id(&self) -> (r: AttrTypeId)
        ensures
            r == attr_type_of(*self),
    {
        match self {
            AttrValue::String(_) => AttrTypeId::String,
            AttrValue::Int64(_) => AttrTypeId::Int64,
            AttrValue::Float64(_) => AttrTypeId::Float64,
            AttrValue::Bool(_) => AttrTypeId::Bool,
            AttrValue::Bytes(_) => AttrTypeId::Bytes,
        }
    }
}

/// An attribute value as plain data: strings by their UTF-8 bytes.
pub enum AttrModel {
    Str(Seq<u8>),
    Int(i64),
    Float(u64),
    Flag(bool),
    Raw(Seq<u8>),
}

pub open spec fn attr_model(v: AttrValue) -> AttrModel {
    match v {
        AttrValue::String(s) => AttrModel::Str(encode_utf8(s@)),
        AttrValue::Int64(i) => AttrModel::Int(i),
        AttrValue::Float64(x) => AttrModel::Float(x),
        AttrValue::Bool(b) => AttrModel::Flag(b),
        AttrValue::Bytes(b) => AttrModel::Raw(b@),
    }
}

/// The UTF-8 bytes of a key.
pub open spec fn key_bytes(k: String) -> Seq<u8> {
    encode_utf8(k@)
}

pub open spec fn model_code(v: AttrModel) -> u8 {
    match v {
        AttrModel::Str(_) => 0,
        AttrModel::Int(_) => 1,
        AttrModel::Float(_) => 2,
        AttrModel::Flag(_) => 3,
        AttrModel::Raw(_) => 4,
    }
}

/// The encoded size of a value.
pub open spec fn model_len(v: AttrModel) -> nat {
    match v {
        AttrModel::Str(b) => b.len(),
        AttrModel::Int(_) => 8,
        AttrModel::Float(_) => 8,
        AttrModel::Flag(_) => 1,
        AttrModel::Raw(b) => b.len(),
    }
}

/// The length field and bytes of a value.
pub open spec fn value_bytes(v: AttrModel) -> Seq<u8> {
    match v {
        AttrModel::Str(b) => le16(b.len() as u16) + b,
        AttrModel::Int(i) => le16(8) + le64(i as u64),
        AttrModel::Float(x) => le16(8) + le64(x),
        AttrModel::Flag(b) => le16(1) + seq![if b { 1u8 } else { 0u8 }],
        AttrModel::Raw(b) => le16(b.len() as u16) + b,
    }
}

/// One encoded entry: key length (at most 255), key bytes, type code, value.
pub open spec fn entry_bytes(k: Seq<u8>, v: AttrModel) -> Seq<u8> {
    let kl: nat = if k.len() > 255 { 255 } else { k.len() };
    seq![kl as u8] + k.take(kl as int) + seq![model_code(v)] + value_bytes(v)
}

/// Entries encoded one after another.
pub open spec fn entries_bytes(ms: Seq<(Seq<u8>, AttrModel)>) -> Seq<u8>
    decreases ms.len(),
{
    if ms.len() == 0 {
        Seq::empty()
    } else {
        entries_bytes(ms.drop_last()) + entry_bytes(ms.last().0, ms.last().1)
    }
}

/// The map built by inserting the entries in order, later ones winning.
pub open spec fn fold_insert(ms: Seq<(Seq<u8>, AttrModel)>) -> Map<Seq<u8>, AttrModel>
    decreases ms.len(),
{
    if ms.len() == 0 {
        Map::empty()
    } else {
        fold_insert(ms.drop_last()).insert(ms.last().0, ms.last().1)
    }
}

pub open spec fn model_entries(es: Seq<(String, AttrValue)>) -> Seq<(Seq<u8>, AttrModel)> {
    es.map_values(|e: (String, AttrValue)| (key_bytes(e.0), attr_model(e.1)))
}

/// Keys strictly increase and every value fits the size limit.
pub open spec fn entries_wf(es: Seq<(String, AttrValue)>) -> bool {
    &&& forall|i: int, j: int| 0 <= i < j < es.len() ==> lex_lt(key_bytes(#[trigger] es[i].0), key_bytes(#[trigger] es[j].0))
    &&& forall|i: int| 0 <= i < es.len() ==> model_len(attr_model(#[trigger] es[i].1)) <= MAX_ATTR_VALUE_SIZE
}

/// What one step of decoding finds at a position.
pub enum AttrStep {
    Done,
    Entry(Seq<u8>, AttrModel, int),
    Eof,
    BadKey,
    BadType(u8),
    TooLarge(nat),
    BadValue,
    BadLen(u8),
}

/// Decodes the entry at `pos`.
pub open spec fn parse_step(buf: Seq<u8>, pos: int) -> AttrStep {
    let n = buf.len() as int;
    if pos >= n {
        AttrStep::Done
    } else {
        let kl = buf[pos] as int;
        let p1 = pos + 1;
        if p1 + kl > n {
            AttrStep::Eof
        } else if !valid_utf8(buf.subrange(p1, p1 + kl)) {
            AttrStep::BadKey
        } else if p1 + kl + 1 > n {
            AttrStep::Eof
        } else if buf[p1 + kl] > 4 {
            AttrStep::BadType(buf[p1 + kl])
        } else if p1 + kl + 3 > n {
            AttrStep::Eof
        } else {
            let t = buf[p1 + kl];
            let vl = get16(buf, p1 + kl + 1) as int;
            let p4 = p1 + kl + 3;
            let kb = buf.subrange(p1, p1 + kl);
            if vl > MAX_ATTR_VALUE_SIZE {
                AttrStep::TooLarge(vl as nat)
            } else if p4 + vl > n {
                AttrStep::Eof
            } else {
                let vb = buf.subrange(p4, p4 + vl);
                let next = p4 + vl;
                if t == 0 {
                    if valid_utf8(vb) { AttrStep::Entry(kb, AttrModel::Str(vb), next) } else { AttrStep::BadValue }
                } else if t == 1 {
                    if vl != 8 { AttrStep::BadLen(1) } else { AttrStep::Entry(kb, AttrModel::Int(get64(vb, 0) as i64), next) }
                } else if t == 2 {
                    if vl != 8 { AttrStep::BadLen(2) } else { AttrStep::Entry(kb, AttrModel::Float(get64(vb, 0)), next) }
                } else if t == 3 {
                    if vl != 1 { AttrStep::BadLen(3) } else { AttrStep::Entry(kb, AttrModel::Flag(vb[0] != 0), next) }
                } else {
                    AttrStep::Entry(kb, AttrModel::Raw(vb), next)
                }
            }
        }
    }
}

/// A decoded entry ends after it starts and within the input.
pub proof fn lemma_step_advances(buf: Seq<u8>, pos: int)
    ensures
        parse_step(buf, pos) matches AttrStep::Entry(_, _, next) ==> pos < next <= buf.len(),
{
}

/// Decodes every entry from `pos` on; the first failing step's verdict otherwise.
pub open spec fn parse_all(buf: Seq<u8>, pos: int) -> Result<Seq<(Seq<u8>, AttrModel)>, AttrStep>
    decreases buf.len() - pos,
{
    match parse_step(buf, pos) {
        AttrStep::Done => Ok(Seq::empty()),
        AttrStep::Entry(k, v, next) => {
            proof {
                lemma_step_advances(buf, pos);
            }
            match parse_all(buf, next) {
                Ok(rest) => Ok(seq![(k, v)] + rest),
                Err(e) => Err(e),
            }
        },
        other => Err(other),
    }
}

// ---------------------------------------------------------------------------
// The map of a sequence of entries.

proof fn lemma_fold_contains(ms: Seq<(Seq<u8>, AttrModel)>, k: Seq<u8>)
    ensures
        fold_insert(ms).contains_key(k) <==> exists|i: int| 0 <= i < ms.len() && #[trigger] ms[i].0 == k,
    decreases ms.len(),
{
    if ms.len() > 0 {
        let pre = ms.drop_last();
        lemma_fold_contains(pre, k);
        if ms.last().0 == k {
            assert(ms[ms.len() - 1].0 == k);
        } else {
            if exists|i: int| 0 <= i < ms.len() && #[trigger] ms[i].0 == k {
                let i = choose|i: int| 0 <= i < ms.len() && #[trigger] ms[i].0 == k;
                assert(pre[i].0 == k);
            }
            if exists|i: int| 0 <= i < pre.len() && #[trigger] pre[i].0 == k {
                let i = choose|i: int| 0 <= i < pre.len() && #[trigger] pre[i].0 == k;
                assert(ms[i].0 == k);
            }
        }
    }
}

proof fn lemma_fold_value(ms: Seq<(Seq<u8>, AttrModel)>, i: int)
    requires
        0 <= i < ms.len(),
        forall|j: int| i < j < ms.len() ==> #[trigger] ms[j].0 != ms[i].0,
    ensures
        fold_insert(ms).contains_key(ms[i].0),
        fold_insert(ms)[ms[i].0] == ms[i].1,
    decreases ms.len(),
{
    if i < ms.len() - 1 {
        let pre = ms.drop_last();
        assert forall|j: int| i < j < pre.len() implies #[trigger] pre[j].0 != pre[i].0 by {
            assert(ms[j].0 != ms[i].0);
        }
        lemma_fold_value(pre, i);
        assert(ms[ms.len() - 1].0 != ms[i].0);
    }
}

pub open spec fn unique_keys(ms: Seq<(Seq<u8>, AttrModel)>) -> bool {
    forall|a: int, b: int| 0 <= a < b < ms.len() ==> #[trigger] ms[a].0 != #[trigger] ms[b].0
}

/// Distinct keys: the map of the entries holds exactly their pairs.
proof fn lemma_fold_unique(ms: Seq<(Seq<u8>, AttrModel)>, i: int)
    requires
        0 <= i < ms.len(),
        unique_keys(ms),
    ensures
        fold_insert(ms).contains_key(ms[i].0),
        fold_insert(ms)[ms[i].0] == ms[i].1,
{
    assert forall|j: int| i < j < ms.len() implies #[trigger] ms[j].0 != ms[i].0 by {
    }
    lemma_fold_value(ms, i);
}

// ---------------------------------------------------------------------------
// UTF-8 conversion.

#[verifier::external_type_specification]
#[verifier::external_body]
pub struct ExFromUtf8Error(std::string::FromUtf8Error);

/// Calls `String::from_utf8`. As its documentation states, it fails exactly
/// when the bytes are not valid UTF-8, and otherwise the string holds those
/// bytes.
#[verifier::external_body]
fn string_from_utf8(bytes: Vec<u8>) -> (r: Result<String, std::string::FromUtf8Error>)
    ensures
        r is Ok <==> valid_utf8(bytes@),
        r matches Ok(s) ==> encode_utf8(s@) == bytes@,
{
    String::from_utf8(bytes)
}

/// Calls `ToString::to_string` on a UTF-8 error; nothing is claimed of the text.
#[verifier::external_body]
fn utf8_error_text(e: &std::string::FromUtf8Error) -> String {
    e.to_string()
}

/// The bytes of `len` positions of `buf` from `start` on.
fn copy_range(buf: &[u8], start: usize, len: usize) -> (r: Vec<u8>)
    requires
        start + len <= buf@.len(),
    ensures
        r@ == buf@.subrange(start as int, start + len),
{
    let _n = buf.len();
    let s = vstd::slice::slice_subrange(buf, start, start + len);
    crate::wire::copy_bytes(s)
}

// ---------------------------------------------------------------------------
// The attribute set.

/// Named attribute values, kept sorted by key bytes.
#[derive(Clone, Debug)]
pub struct Attrs {
    pub entries: Vec<(String, AttrValue)>,
}

impl Attrs {
    /// The attributes as a map from key bytes to values.
    pub open spec fn view(&self) -> Map<Seq<u8>, AttrModel> {
        fold_insert(model_entries(self.entries@))
    }

    pub open spec fn wf(&self) -> bool {
        entries_wf(self.entries@)
    }

    pub fn new() -> (r: Self)
        ensures
            r.wf(),
            r.view() == Map::<Seq<u8>, AttrModel>::empty(),
            r.entries@.len() == 0,
    {
        let r = Attrs { entries: Vec::new() };
        assert(model_entries(r.entries@) =~= Seq::<(Seq<u8>, AttrModel)>::empty());
        r
    }

    /// The encoded size of a value.
    fn value_len(value: &AttrValue) -> (r: usize)
        ensures
            r == model_len(attr_model(*value)),
    {
        match value {
            AttrValue::String(s) => s.as_str().as_bytes().len(),
            AttrValue::Int64(_) => 8,
            AttrValue::Float64(_) => 8,
            AttrValue::Bool(_) => 1,
            AttrValue::Bytes(b) => b.len(),
        }
    }

    /// Sets `key` to `value`; a value over the size limit is refused.
    pub fn set(&mut self, key: String, value: AttrValue) -> (r: Result<(), TpxError>)
        requires
            old(self).wf(),
        ensures
            final(self).wf(),
            model_len(attr_model(value)) > MAX_ATTR_VALUE_SIZE ==> (r matches Err(TpxError::AttrValueTooLarge { len })
                && len == model_len(attr_model(value))) && final(self).view() == old(self).view(),
            model_len(attr_model(value)) <= MAX_ATTR_VALUE_SIZE ==> r is Ok && final(self).view() == old(
                self,
            ).view().insert(key_bytes(key), attr_model(value)),
    {
        let val_len = Self::value_len(&value);
        if val_len > MAX_ATTR_VALUE_SIZE {
            return Err(TpxError::AttrValueTooLarge { len: val_len });
        }
        let ghost kb = key_bytes(key);
        let ghost es0 = self.entries@;
        let mut i: usize = 0;
        while i < self.entries.len()
            invariant
                self.entries@ == es0,
                entries_wf(es0),
                i <= es0.len(),
                kb == key_bytes(key),
                forall|j: int| 0 <= j < i ==> lex_lt(key_bytes(#[trigger] es0[j].0), kb),
            ensures
                i <= es0.len(),
                forall|j: int| 0 <= j < i ==> lex_lt(key_bytes(#[trigger] es0[j].0), kb),
                i < es0.len() ==> !lex_lt(key_bytes(es0[i as int].0), kb),
            decreases es0.len() - i,
        {
            let entry_key = self.entries[i].0.as_str().as_bytes();
            assert(entry_key@ == key_bytes(es0[i as int].0));
            if !lex_less(entry_key, key.as_str().as_bytes()) {
                break;
            }
            i = i + 1;
        }
        let ms0 = Ghost(model_entries(es0));
        let found = i < self.entries.len() && bytes_equal(self.entries[i].0.as_str().as_bytes(), key.as_str().as_bytes());
        assert(found ==> key_bytes(es0[i as int].0) == kb);
        assert(!found && i < es0.len() ==> key_bytes(es0[i as int].0) != kb);
        if found {
            let _ = self.entries.remove(i);
            self.entries.insert(i, (key, value));
            proof {
                self.lemma_keys_distinct_of(es0);
                let ms1 = model_entries(self.entries@);
                assert(ms1 =~= ms0@.update(i as int, (kb, attr_model(value))));
                self.lemma_sorted_after_replace(es0, i as int, kb);
                lemma_replace_view(ms0@, i as int, kb, attr_model(value));
            }
        } else {
            self.entries.insert(i, (key, value));
            proof {
                self.lemma_keys_distinct_of(es0);
                lemma_absent_key(es0, i as int, kb);
                let ms1 = model_entries(self.entries@);
                assert(ms1 =~= ms0@.insert(i as int, (kb, attr_model(value))));
                self.lemma_sorted_after_insert(es0, i as int, kb);
                lemma_insert_view(ms0@, i as int, kb, attr_model(value));
            }
        }
        Ok(())
    }

    proof fn lemma_sorted_after_replace(&self, es0: Seq<(String, AttrValue)>, i: int, kb: Seq<u8>)
        requires
            entries_wf(es0),
            0 <= i < es0.len(),
            key_bytes(es0[i].0) == kb,
            self.entries@.len() == es0.len(),
            key_bytes(self.entries@[i].0) == kb,
            model_len(attr_model(self.entries@[i].1)) <= MAX_ATTR_VALUE_SIZE,
            forall|j: int| 0 <= j < es0.len() && j != i ==> self.entries@[j] == es0[j],
        ensures
            entries_wf(self.entries@),
    {
        let es = self.entries@;
        assert forall|a: int, b: int| 0 <= a < b < es.len() implies lex_lt(key_bytes(#[trigger] es[a].0), key_bytes(#[trigger] es[b].0)) by {
            assert(key_bytes(es[a].0) == key_bytes(es0[a].0));
            assert(key_bytes(es[b].0) == key_bytes(es0[b].0));
            assert(lex_lt(key_bytes(es0[a].0), key_bytes(es0[b].0)));
        }
        assert forall|a: int| 0 <= a < es.len() implies model_len(attr_model(#[trigger] es[a].1)) <= MAX_ATTR_VALUE_SIZE by {
            if a != i {
                assert(es[a] == es0[a]);
            }
        }
    }

    proof fn lemma_sorted_after_insert(&self, es0: Seq<(String, AttrValue)>, i: int, kb: Seq<u8>)
        requires
            entries_wf(es0),
            0 <= i <= es0.len(),
            forall|j: int| 0 <= j < i ==> lex_lt(key_bytes(#[trigger] es0[j].0), kb),
            i < es0.len() ==> !lex_lt(key_bytes(es0[i].0), kb) && key_bytes(es0[i].0) != kb,
            self.entries@.len() == es0.len() + 1,
            key_bytes(self.entries@[i].0) == kb,
            model_len(attr_model(self.entries@[i].1)) <= MAX_ATTR_VALUE_SIZE,
            forall|j: int| 0 <= j < i ==> self.entries@[j] == es0[j],
            forall|j: int| i < j < self.entries@.len() ==> self.entries@[j] == es0[j - 1],
        ensures
            entries_wf(self.entries@),
    {
        let es = self.entries@;
        if i < es0.len() {
            lemma_lex_order(key_bytes(es0[i].0), kb, kb);
        }
        assert forall|a: int, b: int| 0 <= a < b < es.len() implies lex_lt(key_bytes(#[trigger] es[a].0), key_bytes(#[trigger] es[b].0)) by {
            if b < i {
                assert(es[a] == es0[a]);
                assert(es[b] == es0[b]);
                assert(lex_lt(key_bytes(es0[a].0), key_bytes(es0[b].0)));
            } else if b == i {
                assert(es[a] == es0[a]);
            } else if a < i {
                assert(es[a] == es0[a]);
                assert(es[b] == es0[b - 1]);
                lemma_lex_order(key_bytes(es0[a].0), kb, key_bytes(es0[b - 1].0));
                if b - 1 > i {
                    assert(lex_lt(key_bytes(es0[i].0), key_bytes(es0[b - 1].0)));
                    lemma_lex_order(kb, key_bytes(es0[i].0), key_bytes(es0[b - 1].0));
                }
            } else if a == i {
                assert(es[b] == es0[b - 1]);
                if b - 1 > i {
                    assert(lex_lt(key_bytes(es0[i].0), key_bytes(es0[b - 1].0)));
                    lemma_lex_order(kb, key_bytes(es0[i].0), key_bytes(es0[b - 1].0));
                }
            } else {
                assert(es[a] == es0[a - 1]);
                assert(es[b] == es0[b - 1]);
                assert(lex_lt(key_bytes(es0[a - 1].0), key_bytes(es0[b - 1].0)));
            }
        }
        assert forall|a: int| 0 <= a < es.len() implies model_len(attr_model(#[trigger] es[a].1)) <= MAX_ATTR_VALUE_SIZE by {
            if a < i {
                assert(es[a] == es0[a]);
            } else if a > i {
                assert(es[a] == es0[a - 1]);
            }
        }
    }

    /// The value of `key`, if set.
    pub fn get(&self, key: &str) -> (r: Option<&AttrValue>)
        requires
            self.wf(),
        ensures
            r is Some <==> self.view().contains_key((*key).spec_bytes()),
            r matches Some(v) ==> attr_model(*v) == self.view()[(*key).spec_bytes()],
    {
        match self.position(key) {
            Some(i) => Some(&self.entries[i].1),
            None => None,
        }
    }

    fn position(&self, key: &str) -> (r: Option<usize>)
        requires
            self.wf(),
        ensures
            r is Some <==> self.view().contains_key((*key).spec_bytes()),
            r matches Some(i) ==> i < self.entries@.len() && key_bytes(self.entries@[i as int].0) == (*key).spec_bytes()
                && attr_model(self.entries@[i as int].1) == self.view()[(*key).spec_bytes()],
    {
        let ghost kb = (*key).spec_bytes();
        let ghost ms = model_entries(self.entries@);
        proof {
            self.lemma_keys_distinct();
            lemma_fold_contains(ms, kb);
        }
        let mut i: usize = 0;
        while i < self.entries.len()
            invariant
                i <= self.entries@.len(),
                ms == model_entries(self.entries@),
                kb == (*key).spec_bytes(),
                forall|j: int| 0 <= j < i ==> key_bytes(#[trigger] self.entries@[j].0) != kb,
                forall|a: int, b: int| 0 <= a < b < ms.len() ==> #[trigger] ms[a].0 != #[trigger] ms[b].0,
            decreases self.entries@.len() - i,
        {
            let entry_key = self.entries[i].0.as_str().as_bytes();
            assert(entry_key@ == key_bytes(self.entries@[i as int].0));
            let kbytes = key.as_bytes();
            assert(kbytes@ == kb);
            let eq = bytes_equal(entry_key, kbytes);
            if eq {
                proof {
                    lemma_fold_unique(ms, i as int);
                }
                return Some(i);
            }
            assert(key_bytes(self.entries@[i as int].0) != kb);
            i = i + 1;
        }
        proof {
            if self.view().contains_key(kb) {
                let j = choose|j: int| 0 <= j < ms.len() && #[trigger] ms[j].0 == kb;
                assert(key_bytes(self.entries@[j].0) == kb);
            }
        }
        None
    }

    proof fn lemma_keys_distinct(&self)
        requires
            self.wf(),
        ensures
            forall|a: int, b: int|
                0 <= a < b < model_entries(self.entries@).len() ==> #[trigger] model_entries(self.entries@)[a].0
                    != #[trigger] model_entries(self.entries@)[b].0,
    {
        let es = self.entries@;
        assert forall|a: int, b: int| 0 <= a < b < model_entries(es).len() implies #[trigger] model_entries(es)[a].0
            != #[trigger] model_entries(es)[b].0 by {
            assert(lex_lt(key_bytes(es[a].0), key_bytes(es[b].0)));
            lemma_lex_order(key_bytes(es[a].0), key_bytes(es[b].0), key_bytes(es[b].0));
        }
    }

    /// Removes `key`, returning its value if it was set.
    pub fn remove(&mut self, key: &str) -> (r: Option<AttrValue>)
        requires
            old(self).wf(),
        ensures
            final(self).wf(),
            final(self).view() == old(self).view().remove((*key).spec_bytes()),
            r is Some <==> old(self).view().contains_key((*key).spec_bytes()),
            r matches Some(v) ==> attr_model(v) == old(self).view()[(*key).spec_bytes()],
    {
        match self.position(key) {
            Some(i) => {
                let ghost es0 = self.entries@;
                let ghost ms0 = model_entries(es0);
                let (_, v) = self.entries.remove(i);
                proof {
                    self.lemma_keys_distinct_of(es0);
                    assert(model_entries(self.entries@) =~= ms0.remove(i as int));
                    lemma_remove_view(ms0, i as int);
                    assert forall|a: int, b: int| 0 <= a < b < self.entries@.len() implies lex_lt(
                        key_bytes(#[trigger] self.entries@[a].0),
                        key_bytes(#[trigger] self.entries@[b].0),
                    ) by {
                        let a0 = if a < i { a } else { a + 1 };
                        let b0 = if b < i { b } else { b + 1 };
                        assert(lex_lt(key_bytes(es0[a0].0), key_bytes(es0[b0].0)));
                    }
                    assert forall|a: int| 0 <= a < self.entries@.len() implies model_len(attr_model(#[trigger] self.entries@[a].1))
                        <= MAX_ATTR_VALUE_SIZE by {
                        let a0 = if a < i { a } else { a + 1 };
                        assert(self.entries@[a] == es0[a0]);
                    }
                }
                Some(v)
            },
            None => {
                assert(self.view().remove((*key).spec_bytes()) =~= self.view());
                None
            },
        }
    }

    proof fn lemma_keys_distinct_of(&self, es: Seq<(String, AttrValue)>)
        requires
            entries_wf(es),
        ensures
            forall|a: int, b: int|
                0 <= a < b < model_entries(es).len() ==> #[trigger] model_entries(es)[a].0 != #[trigger] model_entries(es)[b].0,
    {
        assert forall|a: int, b: int| 0 <= a < b < model_entries(es).len() implies #[trigger] model_entries(es)[a].0
            != #[trigger] model_entries(es)[b].0 by {
            assert(lex_lt(key_bytes(es[a].0), key_bytes(es[b].0)));
            lemma_lex_order(key_bytes(es[a].0), key_bytes(es[b].0), key_bytes(es[b].0));
        }
    }

    pub fn len(&self) -> (r: usize)
        ensures
            r == self.entries@.len(),
    {
        self.entries.len()
    }

    pub fn is_empty(&self) -> (r: bool)
        ensures
            r == (self.entries@.len() == 0),
    {
        self.entries.len() == 0
    }

    /// The entries encoded in key order.
    #[verifier::rlimit(40)]
    pub fn serialize(&self) -> (r: Vec<u8>)
        requires
            self.wf(),
        ensures
            r@ == entries_bytes(model_entries(self.entries@)),
    {
        let mut buf: Vec<u8> = Vec::new();
        let mut i: usize = 0;
        while i < self.entries.len()
            invariant
                i <= self.entries@.len(),
                entries_wf(self.entries@),
                buf@ == entries_bytes(model_entries(self.entries@).take(i as int)),
            decreases self.entries@.len() - i,
        {
            let key = self.entries[i].0.as_str().as_bytes();
            let kl: usize = if key.len() > 255 { 255 } else { key.len() };
            buf.push(kl as u8);
            push_all(&mut buf, vstd::slice::slice_subrange(key, 0, kl));
            let val = &self.entries[i].1;
            buf.push(val.type_id().to_u8());
            assert(model_len(attr_model(self.entries@[i as int].1)) <= MAX_ATTR_VALUE_SIZE);
            match val {
                AttrValue::String(s) => {
                    let b = s.as_str().as_bytes();
                    push16(&mut buf, b.len() as u16);
                    push_all(&mut buf, b);
                },
                AttrValue::Int64(x) => {
                    push16(&mut buf, 8);
                    push64(&mut buf, *x as u64);
                },
                AttrValue::Float64(x) => {
                    push16(&mut buf, 8);
                    push64(&mut buf, *x);
                },
                AttrValue::Bool(b) => {
                    push16(&mut buf, 1);
                    buf.push(if *b { 1u8 } else { 0u8 });
                },
                AttrValue::Bytes(b) => {
                    push16(&mut buf, b.len() as u16);
                    push_all(&mut buf, b.as_slice());
                },
            }
            proof {
                let ms = model_entries(self.entries@);
                assert(ms.take(i + 1).drop_last() =~= ms.take(i as int));
                let (k, v) = ms[i as int];
                assert(buf@ =~= entries_bytes(ms.take(i as int)) + entry_bytes(k, v));
            }
            i = i + 1;
        }
        assert(model_entries(self.entries@).take(i as int) =~= model_entries(self.entries@));
        buf
    }

    /// Decodes entries until the input ends, setting each in turn.
    pub fn deserialize(buf: &[u8]) -> (r: Result<Self, TpxError>)
        ensures
            match parse_all(buf@, 0) {
                Ok(ms) => r matches Ok(a) && a.wf() && a.view() == fold_insert(ms),
                Err(AttrStep::Eof) => r matches Err(TpxError::Io(_)),
                Err(AttrStep::BadKey) => r matches Err(TpxError::CorruptArchive(_)),
                Err(AttrStep::BadValue) => r matches Err(TpxError::CorruptArchive(_)),
                Err(AttrStep::BadLen(_)) => r matches Err(TpxError::CorruptArchive(_)),
                Err(AttrStep::BadType(t)) => r matches Err(TpxError::InvalidAttrType(x)) && x == t,
                Err(AttrStep::TooLarge(l)) => r matches Err(TpxError::AttrValueTooLarge { len }) && len == l,
                Err(_) => false,
            },
    {
        let mut attrs = Self::new();
        let n = buf.len();
        let mut pos: usize = 0;
        let ghost mut done: Seq<(Seq<u8>, AttrModel)> = Seq::empty();
        while pos < n
            invariant
                n == buf@.len(),
                pos <= n,
                attrs.wf(),
                attrs.view() == fold_insert(done),
                parse_all(buf@, 0) == match parse_all(buf@, pos as int) {
                    Ok(rest) => Ok(done + rest),
                    Err(e) => Err::<Seq<(Seq<u8>, AttrModel)>, AttrStep>(e),
                },
            decreases n - pos,
        {
            let key_len = buf[pos] as usize;
            let p1 = pos + 1;
            if key_len > n - p1 {
                return Err(TpxError::Io(unexpected_eof()));
            }
            let key_bytes_v = copy_range(buf, p1, key_len);
            let key = match string_from_utf8(key_bytes_v) {
                Ok(s) => s,
                Err(e) => return Err(TpxError::CorruptArchive(utf8_error_text(&e))),
            };
            let p2 = p1 + key_len;
            if p2 >= n {
                return Err(TpxError::Io(unexpected_eof()));
            }
            let type_code = buf[p2];
            let type_id = match AttrTypeId::from_u8(type_code) {
                Ok(t) => t,
                Err(e) => return Err(e),
            };
            let p3 = p2 + 1;
            if n - p3 < 2 {
                return Err(TpxError::Io(unexpected_eof()));
            }
            let val_len = read16(buf, p3) as usize;
            if val_len > MAX_ATTR_VALUE_SIZE {
                return Err(TpxError::AttrValueTooLarge { len: val_len });
            }
            let p4 = p3 + 2;
            if val_len > n - p4 {
                return Err(TpxError::Io(unexpected_eof()));
            }
            let val_bytes = copy_range(buf, p4, val_len);
            let ghost vb = val_bytes@;
            let val = match type_id {
                AttrTypeId::String => match string_from_utf8(val_bytes) {
                    Ok(s) => AttrValue::String(s),
                    Err(e) => return Err(TpxError::CorruptArchive(utf8_error_text(&e))),
                },
                AttrTypeId::Int64 => {
                    if val_len != 8 {
                        return Err(TpxError::CorruptArchive("Int64 attr len != 8".to_string()));
                    }
                    AttrValue::Int64(read64(val_bytes.as_slice(), 0) as i64)
                },
                AttrTypeId::Float64 => {
                    if val_len != 8 {
                        return Err(TpxError::CorruptArchive("Float64 attr len != 8".to_string()));
                    }
                    AttrValue::Float64(read64(val_bytes.as_slice(), 0))
                },
                AttrTypeId::Bool => {
                    if val_len != 1 {
                        return Err(TpxError::CorruptArchive("Bool attr len != 1".to_string()));
                    }
                    AttrValue::Bool(val_bytes[0] != 0)
                },
                AttrTypeId::Bytes => AttrValue::Bytes(val_bytes),
            };
            let ghost km = key_bytes(key);
            let ghost vm = attr_model(val);
            proof {
                assert(parse_step(buf@, pos as int) == AttrStep::Entry(km, vm, (p4 + val_len) as int));
                lemma_step_advances(buf@, pos as int);
            }
            match attrs.set(key, val) {
                Ok(()) => {},
                Err(e) => return Err(e),
            }
            proof {
                let old_done = done;
                done = done.push((km, vm));
                assert(done.drop_last() =~= old_done);
                match parse_all(buf@, (p4 + val_len) as int) {
                    Ok(rest) => {
                        assert(old_done + (seq![(km, vm)] + rest) =~= done + rest);
                    },
                    Err(_) => {},
                }
            }
            pos = p4 + val_len;
        }
        proof {
            assert(done + Seq::<(Seq<u8>, AttrModel)>::empty() =~= done);
        }
        Ok(attrs)
    }
}

/// A key that sorts after the first `i` keys and strictly before key `i`
/// is none of the keys.
proof fn lemma_absent_key(es: Seq<(String, AttrValue)>, i: int, kb: Seq<u8>)
    requires
        entries_wf(es),
        0 <= i <= es.len(),
        forall|j: int| 0 <= j < i ==> lex_lt(key_bytes(#[trigger] es[j].0), kb),
        i < es.len() ==> !lex_lt(key_bytes(es[i].0), kb) && key_bytes(es[i].0) != kb,
    ensures
        forall|j: int| 0 <= j < es.len() ==> #[trigger] model_entries(es)[j].0 != kb,
{
    assert forall|j: int| 0 <= j < es.len() implies #[trigger] model_entries(es)[j].0 != kb by {
        let kj = key_bytes(es[j].0);
        if j < i {
            lemma_lex_order(kj, kb, kb);
        } else {
            let ki = key_bytes(es[i].0);
            lemma_lex_order(ki, kb, kb);
            if j > i {
                assert(lex_lt(ki, kj));
                lemma_lex_order(kb, ki, kj);
                lemma_lex_order(kb, kj, kj);
            }
        }
    }
}

proof fn lemma_replace_view(ms: Seq<(Seq<u8>, AttrModel)>, i: int, k: Seq<u8>, v: AttrModel)
    requires
        0 <= i < ms.len(),
        ms[i].0 == k,
        unique_keys(ms),
    ensures
        fold_insert(ms.update(i, (k, v))) == fold_insert(ms).insert(k, v),
{
    let ms1 = ms.update(i, (k, v));
    assert(unique_keys(ms1)) by {
        assert forall|a: int, b: int| 0 <= a < b < ms1.len() implies #[trigger] ms1[a].0 != #[trigger] ms1[b].0 by {
            assert(ms[a].0 == ms1[a].0);
            assert(ms[b].0 == ms1[b].0);
        }
    }
    assert forall|x: Seq<u8>| #[trigger] fold_insert(ms1).contains_key(x) == fold_insert(ms).insert(k, v).contains_key(x) by {
        lemma_fold_contains(ms1, x);
        lemma_fold_contains(ms, x);
        if exists|j: int| 0 <= j < ms.len() && #[trigger] ms[j].0 == x {
            let j = choose|j: int| 0 <= j < ms.len() && #[trigger] ms[j].0 == x;
            assert(ms1[j].0 == x);
        }
        if exists|j: int| 0 <= j < ms1.len() && #[trigger] ms1[j].0 == x {
            let j = choose|j: int| 0 <= j < ms1.len() && #[trigger] ms1[j].0 == x;
            assert(ms[j].0 == x);
        }
    }
    assert forall|x: Seq<u8>| fold_insert(ms1).contains_key(x) implies #[trigger] fold_insert(ms1)[x] == fold_insert(ms).insert(k, v)[x] by {
        lemma_fold_contains(ms1, x);
        let j = choose|j: int| 0 <= j < ms1.len() && #[trigger] ms1[j].0 == x;
        lemma_fold_unique(ms1, j);
        if j != i {
            lemma_fold_unique(ms, j);
        }
    }
    assert(fold_insert(ms1) =~= fold_insert(ms).insert(k, v));
}

proof fn lemma_insert_view(ms: Seq<(Seq<u8>, AttrModel)>, i: int, k: Seq<u8>, v: AttrModel)
    requires
        0 <= i <= ms.len(),
        forall|j: int| 0 <= j < ms.len() ==> #[trigger] ms[j].0 != k,
        unique_keys(ms),
    ensures
        fold_insert(ms.insert(i, (k, v))) == fold_insert(ms).insert(k, v),
{
    let ms1 = ms.insert(i, (k, v));
    assert(unique_keys(ms1)) by {
        assert forall|a: int, b: int| 0 <= a < b < ms1.len() implies #[trigger] ms1[a].0 != #[trigger] ms1[b].0 by {
            if a < i && b < i {
            } else if a < i && b == i {
            } else if a < i {
                assert(ms1[b] == ms[b - 1]);
            } else if a == i {
                assert(ms1[b] == ms[b - 1]);
            } else {
                assert(ms1[a] == ms[a - 1]);
                assert(ms1[b] == ms[b - 1]);
            }
        }
    }
    assert forall|x: Seq<u8>| #[trigger] fold_insert(ms1).contains_key(x) == fold_insert(ms).insert(k, v).contains_key(x) by {
        lemma_fold_contains(ms1, x);
        lemma_fold_contains(ms, x);
        assert(ms1[i].0 == k);
        if exists|j: int| 0 <= j < ms.len() && #[trigger] ms[j].0 == x {
            let j = choose|j: int| 0 <= j < ms.len() && #[trigger] ms[j].0 == x;
            let j1 = if j < i { j } else { j + 1 };
            assert(ms1[j1] == ms[j]);
        }
        if x != k && exists|j: int| 0 <= j < ms1.len() && #[trigger] ms1[j].0 == x {
            let j = choose|j: int| 0 <= j < ms1.len() && #[trigger] ms1[j].0 == x;
            let j0 = if j < i { j } else { j - 1 };
            assert(ms[j0] == ms1[j]);
        }
    }
    assert forall|x: Seq<u8>| fold_insert(ms1).contains_key(x) implies #[trigger] fold_insert(ms1)[x] == fold_insert(ms).insert(k, v)[x] by {
        lemma_fold_contains(ms1, x);
        let j = choose|j: int| 0 <= j < ms1.len() && #[trigger] ms1[j].0 == x;
        lemma_fold_unique(ms1, j);
        if j != i {
            let j0 = if j < i { j } else { j - 1 };
            assert(ms[j0] == ms1[j]);
            lemma_fold_unique(ms, j0);
        }
    }
    assert(fold_insert(ms1) =~= fold_insert(ms).insert(k, v));
}

proof fn lemma_remove_view(ms: Seq<(Seq<u8>, AttrModel)>, i: int)
    requires
        0 <= i < ms.len(),
        unique_keys(ms),
    ensures
        fold_insert(ms.remove(i)) == fold_insert(ms).remove(ms[i].0),
{
    let k = ms[i].0;
    let ms1 = ms.remove(i);
    assert(unique_keys(ms1)) by {
        assert forall|a: int, b: int| 0 <= a < b < ms1.len() implies #[trigger] ms1[a].0 != #[trigger] ms1[b].0 by {
            let a0 = if a < i { a } else { a + 1 };
            let b0 = if b < i { b } else { b + 1 };
            assert(ms1[a] == ms[a0]);
            assert(ms1[b] == ms[b0]);
        }
    }
    assert forall|x: Seq<u8>| #[trigger] fold_insert(ms1).contains_key(x) == fold_insert(ms).remove(k).contains_key(x) by {
        lemma_fold_contains(ms1, x);
        lemma_fold_contains(ms, x);
        if exists|j: int| 0 <= j < ms1.len() && #[trigger] ms1[j].0 == x {
            let j = choose|j: int| 0 <= j < ms1.len() && #[trigger] ms1[j].0 == x;
            let j0 = if j < i { j } else { j + 1 };
            assert(ms[j0] == ms1[j]);
            assert(j0 != i);
        }
        if x != k && exists|j: int| 0 <= j < ms.len() && #[trigger] ms[j].0 == x {
            let j = choose|j: int| 0 <= j < ms.len() && #[trigger] ms[j].0 == x;
            let j1 = if j < i { j } else { j - 1 };
            assert(ms1[j1] == ms[j]);
        }
    }
    assert forall|x: Seq<u8>| fold_insert(ms1).contains_key(x) implies #[trigger] fold_insert(ms1)[x] == fold_insert(ms).remove(k)[x] by {
        lemma_fold_contains(ms1, x);
        let j = choose|j: int| 0 <= j < ms1.len() && #[trigger] ms1[j].0 == x;
        let j0 = if j < i { j } else { j + 1 };
        assert(ms[j0] == ms1[j]);
        lemma_fold_unique(ms1, j);
        lemma_fold_unique(ms, j0);
    }
    assert(fold_insert(ms1) =~= fold_insert(ms).remove(k));
}

// ---------------------------------------------------------------------------
// Decoding what was encoded.

/// An entry that encodes without loss: a key of at most 255 valid UTF-8
/// bytes and a value within the size limit, strings valid UTF-8.
pub open spec fn entry_round_trips(k: Seq<u8>, v: AttrModel) -> bool {
    &&& k.len() <= 255
    &&& valid_utf8(k)
    &&& model_len(v) <= MAX_ATTR_VALUE_SIZE
    &&& (v matches AttrModel::Str(b) ==> valid_utf8(b))
}

proof fn lemma_entries_bytes_first(ms: Seq<(Seq<u8>, AttrModel)>)
    requires
        ms.len() > 0,
    ensures
        entries_bytes(ms) == entry_bytes(ms[0].0, ms[0].1) + entries_bytes(ms.drop_first()),
    decreases ms.len(),
{
    if ms.len() > 1 {
        lemma_entries_bytes_first(ms.drop_last());
        assert(ms.drop_last().drop_first() =~= ms.drop_first().drop_last());
        assert(ms.drop_last()[0] == ms[0]);
        assert(ms.drop_first().last() == ms.last());
    } else {
        assert(ms.drop_first() =~= Seq::<(Seq<u8>, AttrModel)>::empty());
        assert(ms.drop_last() =~= Seq::<(Seq<u8>, AttrModel)>::empty());
    }
}

proof fn lemma_parse_entry(pre: Seq<u8>, k: Seq<u8>, v: AttrModel, rest: Seq<u8>)
    requires
        entry_round_trips(k, v),
    ensures
        parse_step(pre + entry_bytes(k, v) + rest, pre.len() as int) == AttrStep::Entry(
            k,
            v,
            (pre.len() + entry_bytes(k, v).len()) as int,
        ),
{
    lemma_le_round_trips();
    let e = entry_bytes(k, v);
    let buf = pre + e + rest;
    let p = pre.len() as int;
    let kl = k.len() as int;
    assert(k.take(kl) =~= k);
    let vb = value_bytes(v);
    assert(e =~= seq![kl as u8] + k + seq![model_code(v)] + vb);
    assert(buf[p] == kl as u8);
    assert(buf.subrange(p + 1, p + 1 + kl) =~= k);
    assert(buf[p + 1 + kl] == model_code(v));
    let vl = model_len(v) as int;
    assert(buf.subrange(p + 2 + kl, p + 4 + kl) =~= vb.subrange(0, 2));
    let payload = vb.subrange(2, vb.len() as int);
    assert(buf.subrange(p + 4 + kl, p + 4 + kl + vl) =~= payload);
    match v {
        AttrModel::Str(b) => {
            assert(vb.subrange(0, 2) =~= le16(b.len() as u16));
            assert(payload =~= b);
        },
        AttrModel::Int(i) => {
            assert(vb.subrange(0, 2) =~= le16(8));
            assert(payload =~= le64(i as u64));
            assert(payload.subrange(0, 8) =~= payload);
            let x = i as u64;
            assert((x as i64) == i) by (bit_vector)
                requires
                    x == i as u64,
            ;
        },
        AttrModel::Float(x) => {
            assert(vb.subrange(0, 2) =~= le16(8));
            assert(payload =~= le64(x));
            assert(payload.subrange(0, 8) =~= payload);
        },
        AttrModel::Flag(b) => {
            assert(vb.subrange(0, 2) =~= le16(1));
            assert(payload =~= seq![if b { 1u8 } else { 0u8 }]);
        },
        AttrModel::Raw(b) => {
            assert(vb.subrange(0, 2) =~= le16(b.len() as u16));
            assert(payload =~= b);
        },
    }
}

proof fn lemma_parse_entries(pre: Seq<u8>, ms: Seq<(Seq<u8>, AttrModel)>)
    requires
        forall|i: int| 0 <= i < ms.len() ==> entry_round_trips(#[trigger] ms[i].0, ms[i].1),
    ensures
        parse_all(pre + entries_bytes(ms), pre.len() as int) == Ok::<Seq<(Seq<u8>, AttrModel)>, AttrStep>(ms),
    decreases ms.len(),
{
    if ms.len() == 0 {
        assert(pre + entries_bytes(ms) =~= pre);
        assert(ms =~= Seq::<(Seq<u8>, AttrModel)>::empty());
        assert(parse_step(pre, pre.len() as int) == AttrStep::Done);
    } else {
        lemma_entries_bytes_first(ms);
        let e = entry_bytes(ms[0].0, ms[0].1);
        let tail = ms.drop_first();
        assert(entry_round_trips(ms[0].0, ms[0].1));
        lemma_parse_entry(pre, ms[0].0, ms[0].1, entries_bytes(tail));
        assert(pre + entries_bytes(ms) =~= pre + e + entries_bytes(tail));
        assert forall|i: int| 0 <= i < tail.len() implies entry_round_trips(#[trigger] tail[i].0, tail[i].1) by {
            assert(tail[i] == ms[i + 1]);
        }
        lemma_parse_entries(pre + e, tail);
        let buf = pre + entries_bytes(ms);
        assert((pre + e) + entries_bytes(tail) =~= buf);
        let next = (pre.len() + e.len()) as int;
        assert(parse_step(buf, pre.len() as int) == AttrStep::Entry(ms[0].0, ms[0].1, next));
        assert(parse_all(buf, next) == Ok::<Seq<(Seq<u8>, AttrModel)>, AttrStep>(tail));
        assert(seq![(ms[0].0, ms[0].1)] + tail =~= ms);
        assert(parse_all(buf, pre.len() as int) == Ok::<Seq<(Seq<u8>, AttrModel)>, AttrStep>(seq![(ms[0].0, ms[0].1)] + tail));
    }
}

/// Decoding the encoding of an attribute set whose keys are at most 255
/// bytes long gives its entries back, and so the same attributes.
pub proof fn lemma_attrs_round_trip(a: Attrs)
    requires
        a.wf(),
        forall|i: int| 0 <= i < a.entries@.len() ==> (#[trigger] key_bytes(a.entries@[i].0)).len() <= 255,
    ensures
        parse_all(entries_bytes(model_entries(a.entries@)), 0) == Ok::<Seq<(Seq<u8>, AttrModel)>, AttrStep>(
            model_entries(a.entries@),
        ),
        fold_insert(model_entries(a.entries@)) == a.view(),
{
    lemma_entry_list_round_trip(a.entries@);
}

/// The entries of a well-formed list with keys of at most 255 bytes decode
/// back from their encoding.
pub proof fn lemma_entry_list_round_trip(es: Seq<(String, AttrValue)>)
    requires
        entries_wf(es),
        forall|i: int| 0 <= i < es.len() ==> (#[trigger] key_bytes(es[i].0)).len() <= 255,
    ensures
        parse_all(entries_bytes(model_entries(es)), 0) == Ok::<Seq<(Seq<u8>, AttrModel)>, AttrStep>(model_entries(es)),
{
    let ms = model_entries(es);
    assert forall|i: int| 0 <= i < ms.len() implies entry_round_trips(#[trigger] ms[i].0, ms[i].1) by {
        let (s, v) = es[i];
        assert(key_bytes(s).len() <= 255);
        vstd::utf8::encode_utf8_valid_utf8(s@);
        assert(model_len(attr_model(v)) <= MAX_ATTR_VALUE_SIZE);
        match v {
            AttrValue::String(t) => {
                vstd::utf8::encode_utf8_valid_utf8(t@);
            },
            _ => {},
        }
    }
    lemma_parse_entries(Seq::empty(), ms);
    assert(Seq::<u8>::empty() + entries_bytes(ms) =~= entries_bytes(ms));
}

// ---------------------------------------------------------------------------
// Attribute lists.

/// The attributes that setting each pair in turn produces: later pairs win,
/// values over the size limit are refused.
pub open spec fn pairs_view(pairs: Seq<(String, AttrValue)>) -> Map<Seq<u8>, AttrModel>
    decreases pairs.len(),
{
    if pairs.len() == 0 {
        Map::empty()
    } else {
        let m = pairs_view(pairs.drop_last());
        let (k, v) = pairs.last();
        if model_len(attr_model(v)) <= MAX_ATTR_VALUE_SIZE {
            m.insert(key_bytes(k), attr_model(v))
        } else {
            m
        }
    }
}

/// Entries whose keys strictly increase.
pub open spec fn sorted_models(ms: Seq<(Seq<u8>, AttrModel)>) -> bool {
    forall|i: int, j: int| 0 <= i < j < ms.len() ==> lex_lt(#[trigger] ms[i].0, #[trigger] ms[j].0)
}

/// The entries of `m` in key order.
pub open spec fn canonical_entries(m: Map<Seq<u8>, AttrModel>) -> Seq<(Seq<u8>, AttrModel)> {
    choose|ms: Seq<(Seq<u8>, AttrModel)>| sorted_models(ms) && fold_insert(ms) == m
}

/// The encoding of the attributes that the pairs set.
pub open spec fn attrs_block(pairs: Seq<(String, AttrValue)>) -> Seq<u8> {
    entries_bytes(canonical_entries(pairs_view(pairs)))
}

proof fn lemma_sorted_unique(ms: Seq<(Seq<u8>, AttrModel)>)
    requires
        sorted_models(ms),
    ensures
        unique_keys(ms),
{
    assert forall|a: int, b: int| 0 <= a < b < ms.len() implies #[trigger] ms[a].0 != #[trigger] ms[b].0 by {
        lemma_lex_order(ms[a].0, ms[b].0, ms[b].0);
    }
}

/// Entries in key order are determined by the map they make.
proof fn lemma_sorted_fold_unique(ms1: Seq<(Seq<u8>, AttrModel)>, ms2: Seq<(Seq<u8>, AttrModel)>)
    requires
        sorted_models(ms1),
        sorted_models(ms2),
        fold_insert(ms1) == fold_insert(ms2),
    ensures
        ms1 == ms2,
    decreases ms1.len() + ms2.len(),
{
    lemma_sorted_unique(ms1);
    lemma_sorted_unique(ms2);
    if ms1.len() == 0 && ms2.len() == 0 {
        assert(ms1 =~= ms2);
    } else if ms1.len() == 0 {
        lemma_fold_unique(ms2, 0);
    } else if ms2.len() == 0 {
        lemma_fold_unique(ms1, 0);
    } else {
        let n1 = ms1.len() - 1;
        let n2 = ms2.len() - 1;
        let k1 = ms1[n1].0;
        let k2 = ms2[n2].0;
        lemma_fold_unique(ms1, n1);
        lemma_fold_unique(ms2, n2);
        lemma_fold_contains(ms1, k2);
        lemma_fold_contains(ms2, k1);
        let i = choose|i: int| 0 <= i < ms1.len() && #[trigger] ms1[i].0 == k2;
        let j = choose|j: int| 0 <= j < ms2.len() && #[trigger] ms2[j].0 == k1;
        lemma_lex_order(k1, k2, k1);
        if i < n1 {
            assert(lex_lt(ms1[i].0, ms1[n1].0));
        }
        if j < n2 {
            assert(lex_lt(ms2[j].0, ms2[n2].0));
        }
        assert(k1 == k2);
        assert(ms1[n1] == ms2[n2]);
        lemma_remove_view(ms1, n1);
        lemma_remove_view(ms2, n2);
        assert(ms1.remove(n1) =~= ms1.drop_last());
        assert(ms2.remove(n2) =~= ms2.drop_last());
        lemma_sorted_fold_unique(ms1.drop_last(), ms2.drop_last());
        assert(ms1 =~= ms1.drop_last().push(ms1[n1]));
        assert(ms2 =~= ms2.drop_last().push(ms2[n2]));
    }
}

/// For well-formed entries, setting them in turn gives their map.
pub proof fn lemma_pairs_view_wf(es: Seq<(String, AttrValue)>)
    requires
        entries_wf(es),
    ensures
        pairs_view(es) == fold_insert(model_entries(es)),
    decreases es.len(),
{
    if es.len() > 0 {
        let pre = es.drop_last();
        assert(entries_wf(pre)) by {
            assert forall|i: int, j: int| 0 <= i < j < pre.len() implies lex_lt(key_bytes(#[trigger] pre[i].0), key_bytes(#[trigger] pre[j].0)) by {
                assert(pre[i] == es[i] && pre[j] == es[j]);
            }
            assert forall|i: int| 0 <= i < pre.len() implies model_len(attr_model(#[trigger] pre[i].1)) <= MAX_ATTR_VALUE_SIZE by {
                assert(pre[i] == es[i]);
            }
        }
        lemma_pairs_view_wf(pre);
        assert(model_entries(es).drop_last() =~= model_entries(pre));
        assert(model_len(attr_model(es[es.len() - 1].1)) <= MAX_ATTR_VALUE_SIZE);
    }
}

/// A well-formed list is the canonical listing of the attributes it sets,
/// so its attribute block is the encoding of its own entries.
pub proof fn lemma_block_of_sorted(es: Seq<(String, AttrValue)>)
    requires
        entries_wf(es),
    ensures
        canonical_entries(pairs_view(es)) == model_entries(es),
        attrs_block(es) == entries_bytes(model_entries(es)),
        fold_insert(model_entries(es)) == pairs_view(es),
{
    lemma_pairs_view_wf(es);
    let ms = model_entries(es);
    assert(sorted_models(ms)) by {
        assert forall|i: int, j: int| 0 <= i < j < ms.len() implies lex_lt(#[trigger] ms[i].0, #[trigger] ms[j].0) by {
            assert(lex_lt(key_bytes(es[i].0), key_bytes(es[j].0)));
        }
    }
    let c = canonical_entries(pairs_view(es));
    assert(sorted_models(c) && fold_insert(c) == pairs_view(es));
    lemma_sorted_fold_unique(c, ms);
}

/// A value equal to `v` in every respect that the encoding sees.
fn clone_value(v: &AttrValue) -> (r: AttrValue)
    ensures
        attr_model(r) == attr_model(*v),
{
    match v {
        AttrValue::String(s) => AttrValue::String(s.clone()),
        AttrValue::Int64(x) => AttrValue::Int64(*x),
        AttrValue::Float64(x) => AttrValue::Float64(*x),
        AttrValue::Bool(b) => AttrValue::Bool(*b),
        AttrValue::Bytes(b) => {
            let c = crate::wire::copy_bytes(b.as_slice());
            AttrValue::Bytes(c)
        },
    }
}

/// Sets each pair in turn, ignoring values over the size limit, and encodes
/// the result.
pub fn encode_pairs(pairs: &[(String, AttrValue)]) -> (r: Vec<u8>)
    ensures
        r@ == attrs_block(pairs@),
{
    let mut a = Attrs::new();
    let mut i: usize = 0;
    while i < pairs.len()
        invariant
            i <= pairs@.len(),
            a.wf(),
            a.view() == pairs_view(pairs@.take(i as int)),
        decreases pairs@.len() - i,
    {
        let k = pairs[i].0.clone();
        let v = clone_value(&pairs[i].1);
        let _ = a.set(k, v);
        proof {
            assert(pairs@.take(i + 1).drop_last() =~= pairs@.take(i as int));
        }
        i = i + 1;
    }
    proof {
        assert(pairs@.take(i as int) =~= pairs@);
        let ms = model_entries(a.entries@);
        assert(sorted_models(ms)) by {
            assert forall|x: int, y: int| 0 <= x < y < ms.len() implies lex_lt(#[trigger] ms[x].0, #[trigger] ms[y].0) by {
                assert(lex_lt(key_bytes(a.entries@[x].0), key_bytes(a.entries@[y].0)));
            }
        }
        let c = canonical_entries(pairs_view(pairs@));
        assert(sorted_models(c) && fold_insert(c) == pairs_view(pairs@));
        lemma_sorted_fold_unique(c, ms);
    }
    a.serialize()
}

/// The string made of `len` bytes of `buf` from `start` on; an error where
/// they are not valid UTF-8.
pub fn string_of_bytes(buf: &[u8], start: usize, len: usize) -> (r: Result<String, TpxError>)
    requires
        start + len <= buf@.len(),
    ensures
        valid_utf8(buf@.subrange(start as int, start + len)) <==> r is Ok,
        r matches Ok(s) ==> key_bytes(s) == buf@.subrange(start as int, start + len),
        r is Err ==> r matches Err(TpxError::CorruptArchive(_)),
{
    let bytes = copy_range(buf, start, len);
    match string_from_utf8(bytes) {
        Ok(s) => Ok(s),
        Err(e) => Err(TpxError::CorruptArchive(utf8_error_text(&e))),
    }
}

} // verus!
