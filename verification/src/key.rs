//! Record selectors.

use vstd::prelude::*;

verus! {

/// Selects a record by keyword.
///
/// A bare name is strict: `get`/`set`/`remove` error with
/// [`FitsError::AmbiguousKeyword`](crate::FitsError::AmbiguousKeyword) if the keyword is
/// duplicated. The `(name, occurrence)` form targets exactly one record (0-based).
#[derive(Clone, Debug, PartialEq, Eq)]
pub enum Key {
    /// The sole occurrence of a keyword (strict).
    Name(String),
    /// The n-th (0-based) occurrence of a keyword.
    Occurrence(String, usize),
}

/// The mathematical content of a [`Key`].
pub enum KeyView {
    Name(Seq<char>),
    Occurrence(Seq<char>, nat),
}

impl KeyView {
    /// The keyword the key refers to.
    pub open spec fn name(self) -> Seq<char> {
        match self {
            KeyView::Name(n) => n,
            KeyView::Occurrence(n, _) => n,
        }
    }
}

impl View for Key {
    type V = KeyView;

    open spec fn view(&self) -> KeyView {
        match self {
            Key::Name(n) => KeyView::Name(n@),
            Key::Occurrence(n, k) => KeyView::Occurrence(n@, *k as nat),
        }
    }
}

impl Key {
    /// The keyword this key refers to.
    pub fn name(&self) -> (n: &str)
        ensures
            n@ == self@.name(),
    {
        match self {
            Key::Name(n) => n.as_str(),
            Key::Occurrence(n, _) => n.as_str(),
        }
    }

    /// The selected occurrence index, if any.
    pub fn occurrence(&self) -> (o: Option<usize>)
        ensures
            o == (match self {
                Key::Name(_) => None,
                Key::Occurrence(_, k) => Some(*k),
            }),
    {
        match self {
            Key::Name(_) => None,
            Key::Occurrence(_, n) => Some(*n),
        }
    }
}

/// Anything that names a record: a bare keyword or a `(keyword, occurrence)` pair.
pub trait IntoKey: Sized {
    /// The key this value stands for.
    spec fn key_view(&self) -> KeyView;

    /// Converts into a [`Key`].
    fn into_key(self) -> (k: Key)
        ensures
            k@ == self.key_view(),
    ;
}

impl IntoKey for Key {
    open spec fn key_view(&self) -> KeyView {
        self@
    }

    fn into_key(self) -> (k: Key) {
        self
    }
}

impl<'a> IntoKey for &'a str {
    open spec fn key_view(&self) -> KeyView {
        KeyView::Name(self@)
    }

    fn into_key(self) -> (k: Key) {
        Key::Name(self.to_owned())
    }
}

impl IntoKey for String {
    open spec fn key_view(&self) -> KeyView {
        KeyView::Name(self@)
    }

    fn into_key(self) -> (k: Key) {
        Key::Name(self)
    }
}

impl<'a> IntoKey for &'a String {
    open spec fn key_view(&self) -> KeyView {
        KeyView::Name(self@)
    }

    fn into_key(self) -> (k: Key) {
        Key::Name(self.clone())
    }
}

impl<'a> IntoKey for (&'a str, usize) {
    open spec fn key_view(&self) -> KeyView {
        KeyView::Occurrence(self.0@, self.1 as nat)
    }

    fn into_key(self) -> (k: Key) {
        Key::Occurrence(self.0.to_owned(), self.1)
    }
}

impl IntoKey for (String, usize) {
    open spec fn key_view(&self) -> KeyView {
        KeyView::Occurrence(self.0@, self.1 as nat)
    }

    fn into_key(self) -> (k: Key) {
        Key::Occurrence(self.0, self.1)
    }
}

/// Every form of a key selects what it says: a keyword given as `&str`, `String` or
/// `&String` is a bare name (strict: the sole occurrence), a `(keyword, n)` pair given with
/// either string form is the n-th occurrence, and a [`Key`] selects itself.
pub proof fn law_key_forms(name: &str, owned: String, n: usize, key: Key)
    ensures
        <&str as IntoKey>::key_view(&name) == KeyView::Name(name@),
        <String as IntoKey>::key_view(&owned) == KeyView::Name(owned@),
        <&String as IntoKey>::key_view(&&owned) == KeyView::Name(owned@),
        <(&str, usize) as IntoKey>::key_view(&(name, n)) == KeyView::Occurrence(name@, n as nat),
        <(String, usize) as IntoKey>::key_view(&(owned, n)) == KeyView::Occurrence(owned@, n as nat),
        <Key as IntoKey>::key_view(&key) == (match key {
            Key::Name(s) => KeyView::Name(s@),
            Key::Occurrence(s, i) => KeyView::Occurrence(s@, i as nat),
        }),
{
}

} // verus!
