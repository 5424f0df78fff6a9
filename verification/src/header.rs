//! The ordered header of records and its keyword access.

use vstd::prelude::*;

use crate::error::{ErrorView, FitsError};
use crate::key::{IntoKey, Key, KeyView};
use crate::record::{
    is_commentary, is_commentary_keyword, keyword_check, opt_str, record_views, unit_result,
    validate_keyword,
    validate_keyword_raw, KindView, Record, RecordView, Value, ValueView,
};
use crate::text::{text_eq, IntoText};
use crate::value::{opt_view, FromCard, IntoValue};
use vstd::std_specs::iter::IteratorSpec;

verus! {

/// Whether a record carries the keyword `name`.
pub open spec fn named(r: RecordView, name: Seq<char>) -> bool {
    r.kind.keyword() == Some(name)
}

/// The indices of the records that carry `name`, in order.
pub open spec fn positions(recs: Seq<RecordView>, name: Seq<char>) -> Seq<int>
    decreases recs.len(),
{
    if recs.len() == 0 {
        Seq::empty()
    } else {
        let p = positions(recs.drop_last(), name);
        if named(recs.last(), name) {
            p.push(recs.len() - 1)
        } else {
            p
        }
    }
}

/// How many records carry `name`.
pub open spec fn count_of(recs: Seq<RecordView>, name: Seq<char>) -> nat {
    positions(recs, name).len()
}

/// The record a key addresses: `Ok(None)` when absent, an error for a bare name that
/// occurs more than once.
pub open spec fn resolve_spec(recs: Seq<RecordView>, key: KeyView) -> Result<Option<int>, ErrorView> {
    let p = positions(recs, key.name());
    match key {
        KeyView::Occurrence(_, n) => Ok(
            if n < p.len() {
                Some(p[n as int])
            } else {
                None
            },
        ),
        KeyView::Name(name) => if p.len() == 0 {
            Ok(None)
        } else if p.len() == 1 {
            Ok(Some(p[0]))
        } else {
            Err(ErrorView::AmbiguousKeyword { keyword: name, count: p.len() })
        },
    }
}

/// A record once its value is replaced by `v`; it is no longer byte-backed.
pub open spec fn replaced(r: RecordView, v: ValueView) -> RecordView {
    RecordView { kind: r.kind.with_value(v), raw: None }
}

/// The record that `set`/`append` create for `name`: a commentary card for
/// `COMMENT`/`HISTORY`/blank, a value card otherwise.
pub open spec fn new_record(name: Seq<char>, v: ValueView) -> RecordView {
    RecordView {
        kind: if is_commentary(name) {
            KindView::Commentary { keyword: name, text: v.chars() }
        } else {
            KindView::Value { keyword: name, value: v, comment: None }
        },
        raw: None,
    }
}

/// The outcome of `set`: the records afterwards, or the error.
pub open spec fn set_spec(recs: Seq<RecordView>, key: KeyView, v: ValueView, raw: bool) -> Result<
    Seq<RecordView>,
    ErrorView,
> {
    let name = key.name();
    match keyword_check(name, raw) {
        Err(e) => Err(e),
        Ok(_) => match resolve_spec(recs, key) {
            Err(e) => Err(e),
            Ok(Some(i)) => Ok(recs.update(i, replaced(recs[i], v))),
            Ok(None) => match key {
                KeyView::Occurrence(_, n) => Err(
                    ErrorView::OccurrenceOutOfRange {
                        keyword: name,
                        occurrence: n,
                        count: count_of(recs, name),
                    },
                ),
                KeyView::Name(_) => Ok(recs.push(new_record(name, v))),
            },
        },
    }
}

/// The outcome of `remove`: the records afterwards and whether one was removed.
pub open spec fn remove_spec(recs: Seq<RecordView>, key: KeyView) -> Result<
    (Seq<RecordView>, bool),
    ErrorView,
> {
    match resolve_spec(recs, key) {
        Err(e) => Err(e),
        Ok(Some(i)) => Ok((recs.remove(i), true)),
        Ok(None) => Ok((recs, false)),
    }
}

/// Every value for `name` that reads as `T`, in order.
pub open spec fn all_values<T: FromCard>(recs: Seq<RecordView>, name: Seq<char>) -> Seq<T::V>
    decreases recs.len(),
{
    if recs.len() == 0 {
        Seq::empty()
    } else {
        let rest = all_values::<T>(recs.drop_last(), name);
        if named(recs.last(), name) && T::card_spec(recs.last().kind) is Some {
            rest.push(T::card_spec(recs.last().kind).unwrap())
        } else {
            rest
        }
    }
}

/// The views of a batch of `(key, value)` entries.
pub open spec fn entry_views<K: IntoKey, V: IntoValue>(entries: Seq<(K, V)>) -> Seq<(KeyView, ValueView)> {
    entries.map_values(|e: (K, V)| (e.0.key_view(), e.1.value_view()))
}

/// The keys of a batch of entries.
pub open spec fn key_part(entries: Seq<(KeyView, ValueView)>) -> Seq<KeyView> {
    entries.map_values(|e: (KeyView, ValueView)| e.0)
}

/// The views of a batch of keys.
pub open spec fn key_views<K: IntoKey>(keys: Seq<K>) -> Seq<KeyView> {
    keys.map_values(|k: K| k.key_view())
}

/// Validation of one batch entry against the header as it stands before the batch:
/// a standard keyword, not ambiguous, and an existing occurrence when one is named.
pub open spec fn entry_check(recs: Seq<RecordView>, key: KeyView) -> Result<(), ErrorView> {
    match keyword_check(key.name(), false) {
        Err(e) => Err(e),
        Ok(_) => match resolve_spec(recs, key) {
            Err(e) => Err(e),
            Ok(Some(_)) => Ok(()),
            Ok(None) => match key {
                KeyView::Occurrence(name, n) => Err(
                    ErrorView::OccurrenceOutOfRange {
                        keyword: name,
                        occurrence: n,
                        count: count_of(recs, name),
                    },
                ),
                KeyView::Name(_) => Ok(()),
            },
        },
    }
}

/// The first failing entry check of a batch, in order.
pub open spec fn batch_check(recs: Seq<RecordView>, keys: Seq<KeyView>) -> Result<(), ErrorView>
    decreases keys.len(),
{
    if keys.len() == 0 {
        Ok(())
    } else {
        match entry_check(recs, keys[0]) {
            Err(e) => Err(e),
            Ok(_) => batch_check(recs, keys.drop_first()),
        }
    }
}

/// The records after applying `set` for each entry in order.
pub open spec fn apply_sets(recs: Seq<RecordView>, entries: Seq<(KeyView, ValueView)>) -> Seq<
    RecordView,
>
    decreases entries.len(),
{
    if entries.len() == 0 {
        recs
    } else {
        match set_spec(recs, entries[0].0, entries[0].1, false) {
            Ok(next) => apply_sets(next, entries.drop_first()),
            Err(_) => recs,
        }
    }
}

/// Whether every `set` of a batch, applied in order, succeeds.
pub open spec fn sets_succeed(recs: Seq<RecordView>, entries: Seq<(KeyView, ValueView)>) -> bool
    decreases entries.len(),
{
    if entries.len() == 0 {
        true
    } else {
        match set_spec(recs, entries[0].0, entries[0].1, false) {
            Ok(next) => sets_succeed(next, entries.drop_first()),
            Err(_) => false,
        }
    }
}

/// The first resolution error among `keys`, in order.
pub open spec fn batch_resolve(recs: Seq<RecordView>, keys: Seq<KeyView>) -> Result<(), ErrorView>
    decreases keys.len(),
{
    if keys.len() == 0 {
        Ok(())
    } else {
        match resolve_spec(recs, keys[0]) {
            Err(e) => Err(e),
            Ok(_) => batch_resolve(recs, keys.drop_first()),
        }
    }
}

/// The records after removing each key in order, and how many removals happened.
pub open spec fn apply_removes(recs: Seq<RecordView>, keys: Seq<KeyView>) -> (Seq<RecordView>, nat)
    decreases keys.len(),
{
    if keys.len() == 0 {
        (recs, 0)
    } else {
        match remove_spec(recs, keys[0]) {
            Ok((next, removed)) => {
                let (fin, n) = apply_removes(next, keys.drop_first());
                (fin, if removed {
                    n + 1
                } else {
                    n
                })
            },
            Err(_) => (recs, 0),
        }
    }
}

pub proof fn lemma_batch_check_each(recs: Seq<RecordView>, keys: Seq<KeyView>, j: int)
    requires
        batch_check(recs, keys) is Ok,
        0 <= j < keys.len(),
    ensures
        entry_check(recs, keys[j]) is Ok,
    decreases keys.len(),
{
    if j > 0 {
        lemma_batch_check_each(recs, keys.drop_first(), j - 1);
    }
}

pub proof fn lemma_batch_resolve_each(recs: Seq<RecordView>, keys: Seq<KeyView>, j: int)
    requires
        batch_resolve(recs, keys) is Ok,
        0 <= j < keys.len(),
    ensures
        resolve_spec(recs, keys[j]) is Ok,
    decreases keys.len(),
{
    if j > 0 {
        lemma_batch_resolve_each(recs, keys.drop_first(), j - 1);
    }
}

/// A set that succeeds keeps every other entry of a validated batch valid.
pub proof fn lemma_set_keeps_entry_valid(
    recs: Seq<RecordView>,
    key: KeyView,
    v: ValueView,
    other: KeyView,
)
    requires
        set_spec(recs, key, v, false) is Ok,
        entry_check(recs, other) is Ok,
    ensures
        entry_check(set_spec(recs, key, v, false)->Ok_0, other) is Ok,
{
    let name = key.name();
    let oname = other.name();
    let next = set_spec(recs, key, v, false)->Ok_0;
    lemma_positions_bounds(recs, name);
    match resolve_spec(recs, key) {
        Ok(Some(i)) => {
            assert(named(replaced(recs[i], v), oname) == named(recs[i], oname));
            lemma_positions_update(recs, i, replaced(recs[i], v), oname);
        },
        _ => {
            lemma_positions_push(recs, new_record(name, v), oname);
            if oname == name {
                assert(positions(recs, name).len() == 0);
            }
        },
    }
}

/// A removal keeps every bare name resolvable that was resolvable before.
pub proof fn lemma_remove_keeps_resolvable(recs: Seq<RecordView>, i: int, other: KeyView)
    requires
        0 <= i < recs.len(),
        resolve_spec(recs, other) is Ok,
    ensures
        resolve_spec(recs.remove(i), other) is Ok,
{
    lemma_count_remove(recs, i, other.name());
}

/// An ordered FITS header unit: [`Record`]s in appearance order, with strict keyword
/// access (via [`Key`]) and CRUD.
///
/// A `Header` is an in-memory value; its mutators change it in memory only.
#[derive(Clone, Debug, PartialEq)]
pub struct Header {
    records: Vec<Record>,
}

impl View for Header {
    type V = Seq<RecordView>;

    closed spec fn view(&self) -> Seq<RecordView> {
        record_views(self.records@)
    }
}

pub proof fn lemma_positions_bounds(recs: Seq<RecordView>, name: Seq<char>)
    ensures
        forall|k: int|
            0 <= k < positions(recs, name).len() ==> 0 <= #[trigger] positions(recs, name)[k]
                < recs.len() && named(recs[positions(recs, name)[k]], name),
        forall|k: int, l: int|
            0 <= k < l < positions(recs, name).len() ==> #[trigger] positions(recs, name)[k]
                < #[trigger] positions(recs, name)[l],
    decreases recs.len(),
{
    if recs.len() > 0 {
        lemma_positions_bounds(recs.drop_last(), name);
        assert forall|k: int| 0 <= k < positions(recs.drop_last(), name).len() implies recs[positions(recs.drop_last(), name)[k]] == recs.drop_last()[positions(recs.drop_last(), name)[k]] by {}
    }
}

pub proof fn lemma_positions_update(recs: Seq<RecordView>, i: int, r: RecordView, name: Seq<char>)
    requires
        0 <= i < recs.len(),
        named(r, name) == named(recs[i], name),
    ensures
        positions(recs.update(i, r), name) == positions(recs, name),
    decreases recs.len(),
{
    let u = recs.update(i, r);
    if i == recs.len() - 1 {
        assert(u.drop_last() =~= recs.drop_last());
    } else {
        assert(u.drop_last() =~= recs.drop_last().update(i, r));
        lemma_positions_update(recs.drop_last(), i, r, name);
    }
}

pub proof fn lemma_positions_push(recs: Seq<RecordView>, r: RecordView, name: Seq<char>)
    ensures
        positions(recs.push(r), name) == (if named(r, name) {
            positions(recs, name).push(recs.len() as int)
        } else {
            positions(recs, name)
        }),
{
    assert(recs.push(r).drop_last() =~= recs);
}

pub proof fn lemma_count_remove(recs: Seq<RecordView>, i: int, name: Seq<char>)
    requires
        0 <= i < recs.len(),
    ensures
        count_of(recs.remove(i), name) + (if named(recs[i], name) {
            1nat
        } else {
            0nat
        }) == count_of(recs, name),
    decreases recs.len(),
{
    if i == recs.len() - 1 {
        assert(recs.remove(i) =~= recs.drop_last());
    } else {
        assert(recs.remove(i).drop_last() =~= recs.drop_last().remove(i));
        assert(recs.remove(i).last() == recs.last());
        lemma_count_remove(recs.drop_last(), i, name);
    }
}

impl Header {
    /// The original bytes of every byte-backed record are whole 80-byte cards.
    pub proof fn lemma_raw_are_cards(&self)
        ensures
            forall|i: int| 0 <= i < self@.len() ==> crate::record::raw_is_cards(#[trigger] self@[i]),
    {
        assert forall|i: int| 0 <= i < self@.len() implies crate::record::raw_is_cards(
            #[trigger] self@[i],
        ) by {
            self.records@[i].lemma_raw_is_cards();
        }
    }

    /// An empty header.
    pub fn new() -> (h: Header)
        ensures
            h@ == Seq::<RecordView>::empty(),
    {
        let h = Header { records: Vec::new() };
        assert(h@ =~= Seq::<RecordView>::empty());
        h
    }

    /// A header made of `records`, in order.
    pub fn from_records(records: Vec<Record>) -> (h: Header)
        ensures
            h@ == record_views(records@),
    {
        Header { records }
    }

    /// The records in order.
    pub fn cards(&self) -> (c: &[Record])
        ensures
            record_views(c@) == self@,
    {
        self.records.as_slice()
    }

    /// Iterate the records in order.
    pub fn iter(&self) -> (it: std::slice::Iter<'_, Record>)
        ensures
            record_views(IteratorSpec::remaining(&it).unref()) == self@,
    {
        let s = self.records.as_slice();
        let it = s.iter();
        proof {
            vstd::std_specs::slice::axiom_spec_slice_iter(s);
            assert(IteratorSpec::remaining(&it).unref() =~= self.records@);
        }
        it
    }

    /// How many records carry this keyword.
    pub fn count(&self, name: &str) -> (n: usize)
        ensures
            n == count_of(self@, name@),
    {
        let idx = self.indices_of(name);
        idx.len()
    }

    /// The indices of the records carrying `name`, in order.
    fn indices_of(&self, name: &str) -> (idx: Vec<usize>)
        ensures
            idx@.len() == positions(self@, name@).len(),
            forall|k: int| 0 <= k < idx@.len() ==> idx@[k] as int == positions(self@, name@)[k],
    {
        let mut idx: Vec<usize> = Vec::new();
        let mut i: usize = 0;
        let ghost recs = self@;
        while i < self.records.len()
            invariant
                recs == self@,
                recs.len() == self.records@.len(),
                i <= recs.len(),
                idx@.len() == positions(recs.take(i as int), name@).len(),
                forall|k: int|
                    0 <= k < idx@.len() ==> idx@[k] as int == positions(
                        recs.take(i as int),
                        name@,
                    )[k],
            decreases recs.len() - i,
        {
            let ghost before = recs.take(i as int);
            assert(recs.take(i + 1).drop_last() =~= before);
            assert(recs.take(i + 1).last() == recs[i as int]);
            assert(recs[i as int] == self.records@[i as int]@);
            let hit = match self.records[i].keyword() {
                Some(k) => text_eq(k, name),
                None => false,
            };
            if hit {
                idx.push(i);
            }
            i = i + 1;
        }
        assert(recs.take(recs.len() as int) =~= recs);
        idx
    }

    /// The record `set`/`append` create for `name`.
    fn make_record(name: &str, value: Value) -> (r: Record)
        ensures
            r@ == new_record(name@, value@),
    {
        if is_commentary_keyword(name) {
            let text = match value {
                Value::Str(s) => s,
                Value::Literal(s) => s,
            };
            Record::commentary(name, text)
        } else {
            Record::value(name, value, None)
        }
    }

    fn set_inner(&mut self, key: Key, value: Value, raw: bool) -> (r: Result<(), FitsError>)
        ensures
            match r {
                Ok(()) => set_spec(old(self)@, key@, value@, raw) == Ok::<Seq<RecordView>, ErrorView>(
                    final(self)@,
                ),
                Err(e) => set_spec(old(self)@, key@, value@, raw) == Err::<Seq<RecordView>, ErrorView>(e@)
                    && final(self)@ == old(self)@,
            },
    {
        let name = key.name();
        let checked = if raw {
            validate_keyword_raw(name)
        } else {
            validate_keyword(name)
        };
        match checked {
            Err(e) => return Err(e),
            Ok(()) => {},
        }
        match self.resolve(&key) {
            Err(e) => Err(e),
            Ok(Some(i)) => {
                proof {
                    lemma_positions_bounds(self@, name@);
                }
                let ghost before = self@;
                let mut rec = Record::commentary("", "");
                std::mem::swap(&mut rec, &mut self.records[i]);
                rec.replace_value(value);
                self.records.set(i, rec);
                assert(self@ =~= before.update(i as int, replaced(before[i as int], value@)));
                Ok(())
            },
            Ok(None) => match key.occurrence() {
                Some(n) => {
                    let count = self.count(name);
                    Err(FitsError::OccurrenceOutOfRange { keyword: name.to_owned(), occurrence: n, count })
                },
                None => {
                    let ghost before = self@;
                    let rec = Self::make_record(name, value);
                    self.records.push(rec);
                    assert(self@ =~= before.push(new_record(name@, value@)));
                    Ok(())
                },
            },
        }
    }

    /// Read a keyword as `T`. `Err` only on an ambiguous bare name; `Ok(None)` when absent or
    /// the value does not convert.
    pub fn get<T: FromCard>(&self, key: impl IntoKey) -> (r: Result<Option<T>, FitsError>)
        ensures
            match resolve_spec(self@, key.key_view()) {
                Err(e) => r matches Err(e2) && e2@ == e,
                Ok(None) => r matches Ok(None),
                Ok(Some(i)) => r matches Ok(v) && opt_view(v) == T::card_spec(self@[i].kind),
            },
    {
        let key = key.into_key();
        match self.resolve(&key) {
            Err(e) => Err(e),
            Ok(None) => Ok(None),
            Ok(Some(i)) => {
                proof {
                    lemma_positions_bounds(self@, key@.name());
                }
                Ok(T::from_card(&self.records[i]))
            },
        }
    }

    /// Borrow a keyword's string value (`Str` content, non-empty); `None` for empty or a
    /// literal.
    pub fn get_str(&self, key: impl IntoKey) -> (r: Result<Option<&str>, FitsError>)
        ensures
            match resolve_spec(self@, key.key_view()) {
                Err(e) => r matches Err(e2) && e2@ == e,
                Ok(None) => r matches Ok(None),
                Ok(Some(i)) => r matches Ok(v) && opt_str(v) == self@[i].kind.str_content(),
            },
    {
        let key = key.into_key();
        match self.resolve(&key) {
            Err(e) => Err(e),
            Ok(None) => Ok(None),
            Ok(Some(i)) => {
                proof {
                    lemma_positions_bounds(self@, key@.name());
                }
                Ok(self.records[i].str_content())
            },
        }
    }

    /// Every value for a keyword that reads as `T`, in order. Never errors on a duplicated
    /// keyword.
    pub fn get_all<T: FromCard>(&self, name: &str) -> (v: Vec<T>)
        ensures
            v@.map_values(|t: T| t@) == all_values::<T>(self@, name@),
    {
        let mut out: Vec<T> = Vec::new();
        let mut i: usize = 0;
        let ghost recs = self@;
        while i < self.records.len()
            invariant
                recs == self@,
                recs.len() == self.records@.len(),
                i <= recs.len(),
                out@.map_values(|t: T| t@) == all_values::<T>(recs.take(i as int), name@),
            decreases recs.len() - i,
        {
            let ghost before = out@;
            assert(recs.take(i + 1).drop_last() =~= recs.take(i as int));
            assert(recs.take(i + 1).last() == recs[i as int]);
            assert(recs[i as int] == self.records@[i as int]@);
            let hit = match self.records[i].keyword() {
                Some(k) => text_eq(k, name),
                None => false,
            };
            if hit {
                match T::from_card(&self.records[i]) {
                    Some(t) => {
                        out.push(t);
                        assert(out@.map_values(|t: T| t@) =~= before.map_values(|t: T| t@).push(
                            t@,
                        ));
                    },
                    None => {},
                }
            }
            i = i + 1;
        }
        assert(recs.take(recs.len() as int) =~= recs);
        out
    }

    /// Updates the addressed record (or appends when the unique name is absent). The keyword
    /// must be FITS-standard (at most 8 bytes of `A-Z 0-9 - _`); use [`set_raw`](Self::set_raw)
    /// for vendor keys.
    pub fn set(&mut self, key: impl IntoKey, value: impl IntoValue) -> (r: Result<(), FitsError>)
        ensures
            match set_spec(old(self)@, key.key_view(), value.value_view(), false) {
                Ok(recs) => r is Ok && final(self)@ == recs,
                Err(e) => r matches Err(e2) && e2@ == e && final(self)@ == old(self)@,
            },
    {
        let k = key.into_key();
        let v = value.into_value();
        self.set_inner(k, v, false)
    }

    /// Like [`set`](Self::set) but accepts any keyword of at most 8 printable ASCII bytes
    /// (vendor escape hatch).
    pub fn set_raw(&mut self, keyword: &str, value: impl IntoValue) -> (r: Result<(), FitsError>)
        ensures
            match set_spec(old(self)@, KeyView::Name(keyword@), value.value_view(), true) {
                Ok(recs) => r is Ok && final(self)@ == recs,
                Err(e) => r matches Err(e2) && e2@ == e && final(self)@ == old(self)@,
            },
    {
        let v = value.into_value();
        self.set_inner(Key::Name(keyword.to_owned()), v, true)
    }

    /// Always add a record (a value card, or a commentary card for `COMMENT`/`HISTORY`/blank).
    pub fn append(&mut self, name: &str, value: impl IntoValue) -> (r: Result<(), FitsError>)
        ensures
            match keyword_check(name@, false) {
                Ok(_) => r is Ok && final(self)@ == old(self)@.push(
                    new_record(name@, value.value_view()),
                ),
                Err(e) => r matches Err(e2) && e2@ == e && final(self)@ == old(self)@,
            },
    {
        let v = value.into_value();
        match validate_keyword(name) {
            Err(e) => return Err(e),
            Ok(()) => {},
        }
        let ghost before = self@;
        let rec = Self::make_record(name, v);
        self.records.push(rec);
        assert(self@ =~= before.push(new_record(name@, v@)));
        Ok(())
    }

    /// Set or replace the addressed value card's inline comment. A no-op if the keyword is
    /// absent or not a value card.
    pub fn set_comment(&mut self, key: impl IntoKey, comment: impl IntoText) -> (r: Result<(), FitsError>)
        ensures
            match resolve_spec(old(self)@, key.key_view()) {
                Err(e) => r matches Err(e2) && e2@ == e && final(self)@ == old(self)@,
                Ok(None) => r is Ok && final(self)@ == old(self)@,
                Ok(Some(i)) => r is Ok && final(self)@ == old(self)@.update(
                    i,
                    match old(self)@[i].kind {
                        KindView::Value { keyword, value, .. } => RecordView {
                            kind: KindView::Value { keyword, value, comment: Some(comment.text_view()) },
                            raw: None,
                        },
                        _ => old(self)@[i],
                    },
                ),
            },
    {
        let key = key.into_key();
        let c = comment.into_text();
        match self.resolve(&key) {
            Err(e) => Err(e),
            Ok(None) => Ok(()),
            Ok(Some(i)) => {
                proof {
                    lemma_positions_bounds(self@, key@.name());
                }
                let ghost before = self@;
                let mut rec = Record::commentary("", "");
                std::mem::swap(&mut rec, &mut self.records[i]);
                rec.set_comment(Some(c));
                self.records.set(i, rec);
                assert(self@ =~= before.update(
                    i as int,
                    match before[i as int].kind {
                        KindView::Value { keyword, value, .. } => RecordView {
                            kind: KindView::Value { keyword, value, comment: Some(c@) },
                            raw: None,
                        },
                        _ => before[i as int],
                    },
                ));
                Ok(())
            },
        }
    }

    /// Remove the addressed record. Returns whether anything was removed.
    pub fn remove(&mut self, key: impl IntoKey) -> (r: Result<bool, FitsError>)
        ensures
            match remove_spec(old(self)@, key.key_view()) {
                Err(e) => r matches Err(e2) && e2@ == e && final(self)@ == old(self)@,
                Ok((recs, removed)) => r == Ok::<bool, FitsError>(removed) && final(self)@ == recs,
            },
    {
        let key = key.into_key();
        self.remove_key(&key)
    }

    fn remove_key(&mut self, key: &Key) -> (r: Result<bool, FitsError>)
        ensures
            match remove_spec(old(self)@, key@) {
                Err(e) => r matches Err(e2) && e2@ == e && final(self)@ == old(self)@,
                Ok((recs, removed)) => r == Ok::<bool, FitsError>(removed) && final(self)@ == recs,
            },
    {
        match self.resolve(key) {
            Err(e) => Err(e),
            Ok(None) => Ok(false),
            Ok(Some(i)) => {
                proof {
                    lemma_positions_bounds(self@, key@.name());
                }
                let ghost before = self@;
                self.records.remove(i);
                assert(self@ =~= before.remove(i as int));
                Ok(true)
            },
        }
    }

    fn check_entry(&self, key: &Key) -> (r: Result<(), FitsError>)
        ensures
            unit_result(r) == entry_check(self@, key@),
    {
        let name = key.name();
        match validate_keyword(name) {
            Err(e) => return Err(e),
            Ok(()) => {},
        }
        match self.resolve(key) {
            Err(e) => Err(e),
            Ok(Some(_)) => Ok(()),
            Ok(None) => match key.occurrence() {
                Some(n) => {
                    let count = self.count(name);
                    Err(FitsError::OccurrenceOutOfRange { keyword: name.to_owned(), occurrence: n, count })
                },
                None => Ok(()),
            },
        }
    }

    /// Apply several `set`s atomically: every entry is validated against the header first
    /// (standard keyword, no ambiguity, existing occurrence), then all are applied in order,
    /// or none.
    pub fn set_many<K: IntoKey, V: IntoValue>(&mut self, entries: Vec<(K, V)>) -> (r: Result<(), FitsError>)
        ensures
            ({
                let es = entry_views(entries@);
                match batch_check(old(self)@, key_part(es)) {
                    Err(e) => r matches Err(e2) && e2@ == e && final(self)@ == old(self)@,
                    Ok(_) => r is Ok && final(self)@ == apply_sets(old(self)@, es)
                        && sets_succeed(old(self)@, es),
                }
            }),
    {
        let ghost es = entry_views(entries@);
        let ghost keys = key_part(es);
        let mut pending = entries;
        let mut items: Vec<(Key, Value)> = Vec::new();
        let ghost n = pending@.len();
        while pending.len() > 0
            invariant
                items@.len() + pending@.len() == n,
                self@ == old(self)@,
                n == es.len(),
                forall|j: int|
                    0 <= j < items@.len() ==> (#[trigger] items@[j]).0@ == es[j].0
                        && items@[j].1@ == es[j].1,
                forall|j: int|
                    0 <= j < pending@.len() ==> (#[trigger] pending@[j]).0.key_view() == es[items@.len() + j].0
                        && pending@[j].1.value_view() == es[items@.len() + j].1,
            decreases pending@.len(),
        {
            let (k, v) = pending.remove(0);
            let item = (k.into_key(), v.into_value());
            items.push(item);
        }
        // Validate every entry against the header before changing anything.
        let mut j: usize = 0;
        assert(keys.skip(0) =~= keys);
        while j < items.len()
            invariant
                items@.len() == es.len(),
                keys.len() == es.len(),
                keys == key_part(es),
                es == entry_views(entries@),
                forall|l: int| 0 <= l < items@.len() ==> (#[trigger] items@[l]).0@ == keys[l],
                j <= items@.len(),
                self@ == old(self)@,
                batch_check(self@, keys) == batch_check(self@, keys.skip(j as int)),
            decreases items@.len() - j,
        {
            let r = self.check_entry(&items[j].0);
            assert(keys.skip(j as int)[0] == keys[j as int]);
            assert(keys.skip(j as int).drop_first() =~= keys.skip(j + 1));
            match r {
                Err(e) => {
                    assert(keys.skip(j as int).len() > 0);
                    assert(batch_check(self@, keys.skip(j as int)) == Err::<(), ErrorView>(e@));
                    assert(batch_check(old(self)@, keys) == Err::<(), ErrorView>(e@));
                    return Err(e);
                },
                Ok(()) => {},
            }
            j = j + 1;
        }
        assert(keys.skip(items@.len() as int) =~= Seq::<KeyView>::empty());
        let ghost start = self@;
        assert forall|l: int| 0 <= l < keys.len() implies entry_check(start, #[trigger] keys[l]) is Ok by {
            lemma_batch_check_each(start, keys, l);
        }
        assert(es.skip(0) =~= es);
        let mut done: usize = 0;
        while items.len() > 0
            invariant
                done + items@.len() == es.len(),
                es.len() <= usize::MAX,
                forall|l: int|
                    0 <= l < items@.len() ==> (#[trigger] items@[l]).0@ == es[done + l].0
                        && items@[l].1@ == es[done + l].1,
                forall|l: int|
                    0 <= l < items@.len() ==> entry_check(self@, (#[trigger] items@[l]).0@) is Ok,
                apply_sets(start, es) == apply_sets(self@, es.skip(done as int)),
                sets_succeed(self@, es.skip(done as int)) ==> sets_succeed(start, es),
            decreases items@.len(),
        {
            let ghost cur = self@;
            let ghost rest = items@;
            let (k, v) = items.remove(0);
            let ghost kv = k@;
            let ghost vv = v@;
            assert(es.skip(done as int)[0] == (kv, vv));
            assert(es.skip(done as int).drop_first() =~= es.skip(done + 1));
            let r = self.set_inner(k, v, false);
            assert(set_spec(cur, kv, vv, false) is Ok);
            proof {
                assert forall|l: int|
                    0 <= l < items@.len() implies entry_check(self@, (#[trigger] items@[l]).0@) is Ok by {
                    assert(items@[l] == rest[l + 1]);
                    lemma_set_keeps_entry_valid(cur, kv, vv, rest[l + 1].0@);
                }
            }
            done = done + 1;
        }
        assert(es.skip(done as int) =~= Seq::<(KeyView, ValueView)>::empty());
        Ok(())
    }

    /// Remove several keys atomically: every key is resolved first (an ambiguous bare name
    /// rejects the batch), then each is removed in order. Returns how many were removed.
    pub fn remove_many<K: IntoKey>(&mut self, keys: Vec<K>) -> (r: Result<usize, FitsError>)
        ensures
            ({
                let ks = key_views(keys@);
                match batch_resolve(old(self)@, ks) {
                    Err(e) => r matches Err(e2) && e2@ == e && final(self)@ == old(self)@,
                    Ok(_) => r matches Ok(n) && final(self)@ == apply_removes(old(self)@, ks).0
                        && n as nat == apply_removes(old(self)@, ks).1
                        && n + final(self)@.len() == old(self)@.len(),
                }
            }),
    {
        let ghost ks = key_views(keys@);
        let mut pending = keys;
        let mut items: Vec<Key> = Vec::new();
        let ghost n = pending@.len();
        while pending.len() > 0
            invariant
                items@.len() + pending@.len() == n,
                self@ == old(self)@,
                n == ks.len(),
                forall|j: int| 0 <= j < items@.len() ==> (#[trigger] items@[j])@ == ks[j],
                forall|j: int|
                    0 <= j < pending@.len() ==> (#[trigger] pending@[j]).key_view() == ks[items@.len() + j],
            decreases pending@.len(),
        {
            let k = pending.remove(0);
            items.push(k.into_key());
        }
        let mut j: usize = 0;
        assert(ks.skip(0) =~= ks);
        while j < items.len()
            invariant
                items@.len() == ks.len(),
                ks == key_views(keys@),
                forall|l: int| 0 <= l < items@.len() ==> (#[trigger] items@[l])@ == ks[l],
                j <= items@.len(),
                self@ == old(self)@,
                batch_resolve(self@, ks) == batch_resolve(self@, ks.skip(j as int)),
            decreases items@.len() - j,
        {
            let r = self.resolve(&items[j]);
            assert(ks.skip(j as int)[0] == ks[j as int]);
            assert(ks.skip(j as int).drop_first() =~= ks.skip(j + 1));
            match r {
                Err(e) => {
                    assert(ks.skip(j as int).len() > 0);
                    assert(batch_resolve(self@, ks.skip(j as int)) == Err::<(), ErrorView>(e@));
                    return Err(e);
                },
                Ok(_) => {},
            }
            j = j + 1;
        }
        assert(ks.skip(items@.len() as int) =~= Seq::<KeyView>::empty());
        let ghost start = self@;
        assert forall|l: int| 0 <= l < ks.len() implies resolve_spec(start, #[trigger] ks[l]) is Ok by {
            lemma_batch_resolve_each(start, ks, l);
        }
        assert(ks.skip(0) =~= ks);
        let mut done: usize = 0;
        let mut removed: usize = 0;
        while items.len() > 0
            invariant
                done + items@.len() == ks.len(),
                ks.len() <= usize::MAX,
                removed <= done,
                forall|l: int| 0 <= l < items@.len() ==> (#[trigger] items@[l])@ == ks[done + l],
                forall|l: int| 0 <= l < items@.len() ==> resolve_spec(self@, (#[trigger] items@[l])@) is Ok,
                apply_removes(start, ks).0 == apply_removes(self@, ks.skip(done as int)).0,
                apply_removes(start, ks).1 == removed + apply_removes(self@, ks.skip(done as int)).1,
            decreases items@.len(),
        {
            let ghost cur = self@;
            let ghost rest = items@;
            let k = items.remove(0);
            let ghost kv = k@;
            assert(ks.skip(done as int)[0] == kv);
            assert(ks.skip(done as int).drop_first() =~= ks.skip(done + 1));
            let r = self.remove_key(&k);
            proof {
                lemma_positions_bounds(cur, kv.name());
                assert forall|l: int|
                    0 <= l < items@.len() implies resolve_spec(self@, (#[trigger] items@[l])@) is Ok by {
                    assert(items@[l] == rest[l + 1]);
                    if let Ok(Some(i)) = resolve_spec(cur, kv) {
                        lemma_remove_keeps_resolvable(cur, i, rest[l + 1]@);
                    }
                }
            }
            match r {
                Ok(true) => {
                    removed = removed + 1;
                },
                _ => {},
            }
            done = done + 1;
        }
        proof {
            law_removed_count_is_drop(start, ks);
        }
        Ok(removed)
    }

    /// Parse one FITS header unit from raw bytes: 80-byte cards in order up to `END`, every
    /// card retained. Parsing is lenient and always succeeds.
    pub fn parse(bytes: &[u8]) -> (r: Result<Header, FitsError>)
        ensures
            r matches Ok(h) && h@ == crate::parse::parse_spec(bytes@),
    {
        crate::parse::parse(bytes)
    }

    /// Serialize the header block only (cards, `END`, padded to a 2880 multiple).
    pub fn to_header_bytes(&self) -> (out: Vec<u8>)
        ensures
            out@ == crate::write::header_bytes_spec(self@),
            out@.len() % 2880 == 0,
            out@.len() >= 2880,
    {
        crate::write::to_header_bytes(self)
    }

    /// Resolve a key to a record index. A bare name is strict.
    fn resolve(&self, key: &Key) -> (r: Result<Option<usize>, FitsError>)
        ensures
            match r {
                Ok(Some(i)) => resolve_spec(self@, key@) == Ok::<Option<int>, ErrorView>(
                    Some(i as int),
                ),
                Ok(None) => resolve_spec(self@, key@) == Ok::<Option<int>, ErrorView>(None),
                Err(e) => resolve_spec(self@, key@) == Err::<Option<int>, ErrorView>(e@),
            },
    {
        let name = key.name();
        let indices = self.indices_of(name);
        proof {
            lemma_positions_bounds(self@, name@);
        }
        match key.occurrence() {
            Some(n) => if n < indices.len() {
                Ok(Some(indices[n]))
            } else {
                Ok(None)
            },
            None => {
                let count = indices.len();
                if count == 0 {
                    Ok(None)
                } else if count == 1 {
                    Ok(Some(indices[0]))
                } else {
                    Err(FitsError::AmbiguousKeyword { keyword: name.to_owned(), count })
                }
            },
        }
    }
}

} // verus!

verus! {

/// Whether a record's payload is `v`: the value of a value card, or the text of a
/// commentary card.
pub open spec fn holds_value(kind: KindView, v: ValueView) -> bool {
    match kind {
        KindView::Value { value, .. } => value == v,
        KindView::Commentary { text, .. } => text == v.chars(),
        KindView::Opaque { .. } => false,
    }
}

/// Read after write: once `set` succeeds, the same key resolves to a record that holds the
/// value written, and every other record is unchanged.
pub proof fn law_set_then_get(recs: Seq<RecordView>, key: KeyView, v: ValueView, raw: bool)
    requires
        set_spec(recs, key, v, raw) is Ok,
    ensures
        ({
            let next = set_spec(recs, key, v, raw)->Ok_0;
            &&& resolve_spec(next, key) matches Ok(Some(i)) && holds_value(next[i].kind, v)
                && next[i].kind.keyword() == Some(key.name())
            &&& recs.len() <= next.len() <= recs.len() + 1
            &&& forall|j: int|
                0 <= j < recs.len() && resolve_spec(next, key) != Ok::<Option<int>, ErrorView>(
                    Some(j),
                ) ==> next[j] == recs[j]
        }),
{
    let name = key.name();
    let next = set_spec(recs, key, v, raw)->Ok_0;
    lemma_positions_bounds(recs, name);
    match resolve_spec(recs, key) {
        Ok(Some(i)) => {
            assert(named(replaced(recs[i], v), name) == named(recs[i], name));
            lemma_positions_update(recs, i, replaced(recs[i], v), name);
            assert(next[i] == replaced(recs[i], v));
        },
        _ => {
            lemma_positions_push(recs, new_record(name, v), name);
            assert(next[recs.len() as int] == new_record(name, v));
        },
    }
}

/// A bare name that occurs more than once is refused by `get`, `set` and `remove` alike,
/// with the number of occurrences.
pub proof fn law_bare_name_is_strict(recs: Seq<RecordView>, name: Seq<char>, v: ValueView, raw: bool)
    requires
        count_of(recs, name) > 1,
    ensures
        resolve_spec(recs, KeyView::Name(name)) == Err::<Option<int>, ErrorView>(
            ErrorView::AmbiguousKeyword { keyword: name, count: count_of(recs, name) },
        ),
        set_spec(recs, KeyView::Name(name), v, raw) is Err,
        remove_spec(recs, KeyView::Name(name)) is Err,
{
}

pub proof fn lemma_positions_take(recs: Seq<RecordView>, name: Seq<char>, k: int)
    requires
        0 <= k <= recs.len(),
    ensures
        count_of(recs.take(k), name) <= count_of(recs, name),
        positions(recs.take(k), name) == positions(recs, name).take(
            count_of(recs.take(k), name) as int,
        ),
        forall|j: int|
            count_of(recs.take(k), name) <= j < count_of(recs, name) ==> #[trigger] positions(
                recs,
                name,
            )[j] >= k,
    decreases recs.len(),
{
    if k == recs.len() {
        assert(recs.take(k) =~= recs);
        assert(positions(recs, name).take(positions(recs, name).len() as int) =~= positions(
            recs,
            name,
        ));
    } else {
        assert(recs.take(k) =~= recs.drop_last().take(k));
        lemma_positions_take(recs.drop_last(), name, k);
        let p = positions(recs.drop_last(), name);
        let c = count_of(recs.take(k), name);
        if named(recs.last(), name) {
            assert(p.push(recs.len() - 1).take(c as int) =~= p.take(c as int));
        }
    }
}

/// An `(name, n)` key addresses the record carrying `name` that has exactly `n` records
/// carrying `name` before it.
pub proof fn law_occurrence_is_nth(recs: Seq<RecordView>, name: Seq<char>, n: nat)
    requires
        resolve_spec(recs, KeyView::Occurrence(name, n)) matches Ok(Some(_)),
    ensures
        resolve_spec(recs, KeyView::Occurrence(name, n)) matches Ok(Some(i)) && 0 <= i
            < recs.len() && named(recs[i], name) && count_of(recs.take(i), name) == n,
{
    let p = positions(recs, name);
    lemma_positions_bounds(recs, name);
    let i = p[n as int];
    lemma_positions_take(recs, name, i);
    lemma_positions_bounds(recs.take(i), name);
    let c = count_of(recs.take(i), name);
    if c > n {
        assert(positions(recs.take(i), name)[n as int] == p[n as int]);
    } else if c < n {
        assert(p[c as int] >= i);
        assert(p[c as int] < p[n as int]);
    }
}

/// `append` always adds exactly one record carrying the keyword, at the end.
pub proof fn law_append_adds_one(recs: Seq<RecordView>, name: Seq<char>, v: ValueView)
    ensures
        count_of(recs.push(new_record(name, v)), name) == count_of(recs, name) + 1,
        recs.push(new_record(name, v)).last().kind.keyword() == Some(name),
{
    lemma_positions_push(recs, new_record(name, v), name);
}

/// Removing a record that a key resolves to leaves one fewer record carrying its keyword;
/// for a bare name, none is left.
pub proof fn law_remove_drops_one(recs: Seq<RecordView>, key: KeyView)
    requires
        resolve_spec(recs, key) matches Ok(Some(_)),
    ensures
        remove_spec(recs, key) matches Ok((next, true)) && count_of(next, key.name()) + 1
            == count_of(recs, key.name()) && next.len() + 1 == recs.len(),
        key is Name ==> count_of(remove_spec(recs, key)->Ok_0.0, key.name()) == 0,
{
    lemma_positions_bounds(recs, key.name());
    let i = resolve_spec(recs, key)->Ok_0->Some_0;
    lemma_count_remove(recs, i, key.name());
}

/// The number of removals a batch reports is the number of records it took away.
pub proof fn law_removed_count_is_drop(recs: Seq<RecordView>, keys: Seq<KeyView>)
    ensures
        apply_removes(recs, keys).1 + apply_removes(recs, keys).0.len() == recs.len(),
    decreases keys.len(),
{
    if keys.len() > 0 {
        lemma_positions_bounds(recs, keys[0].name());
        match remove_spec(recs, keys[0]) {
            Ok((next, removed)) => {
                law_removed_count_is_drop(next, keys.drop_first());
            },
            Err(_) => {},
        }
    }
}

/// The record that `set` and `append` create for a keyword that is new: for a blank
/// keyword, `COMMENT` or `HISTORY`, a commentary record with that keyword holding the
/// value's text; for any other keyword, a value card holding the value, without comment.
/// Either way it is written afresh.
pub proof fn law_new_record_kind(name: Seq<char>, v: ValueView)
    ensures
        ({
            let text = match v {
                ValueView::Str(t) => t,
                ValueView::Literal(t) => t,
            };
            let free = name.len() == 0 || name == "COMMENT"@ || name == "HISTORY"@;
            &&& new_record(name, v).raw is None
            &&& free ==> new_record(name, v).kind == (KindView::Commentary { keyword: name, text })
            &&& !free ==> new_record(name, v).kind == (KindView::Value {
                keyword: name,
                value: v,
                comment: None,
            })
        }),
{
}

} // verus!
