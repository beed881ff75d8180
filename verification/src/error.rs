//! The one error type of the library, and what of it the contracts speak of.

use vstd::prelude::*;
use vstd::string::StringExecFns;
use crate::dtype::views;

verus! {

/// Why a read or a write was refused.
///
/// The strings are meant for people: the contracts fix which variant is
/// returned and the version or class number it carries, through [`ErrorKind`]. Where
/// callers look for certain words, the contract gives them by [`OxiH5Error::says`].
#[derive(Debug, Clone)]
pub enum OxiH5Error {
    /// The operating system refused; the text is its own.
    Io(String),
    BadSignature,
    UnsupportedSuperblock(u8),
    UnsupportedHeader(u8),
    UnsupportedDatatype(u8),
    UnsupportedLayout(u8),
    NotFound(String),
    TypeMismatch,
    DataTruncated,
    NotImplemented(String),
    Format(String),
    UnsupportedFilter(String),
    Corrupted(String),
}

/// An error without its explanatory text.
pub enum ErrorKind {
    Io,
    BadSignature,
    UnsupportedSuperblock(u8),
    UnsupportedHeader(u8),
    UnsupportedDatatype(u8),
    UnsupportedLayout(u8),
    NotFound,
    TypeMismatch,
    DataTruncated,
    NotImplemented,
    Format,
    UnsupportedFilter,
    Corrupted,
}

impl View for OxiH5Error {
    type V = ErrorKind;

    open spec fn view(&self) -> ErrorKind {
        match self {
            OxiH5Error::Io(_) => ErrorKind::Io,
            OxiH5Error::BadSignature => ErrorKind::BadSignature,
            OxiH5Error::UnsupportedSuperblock(v) => ErrorKind::UnsupportedSuperblock(*v),
            OxiH5Error::UnsupportedHeader(v) => ErrorKind::UnsupportedHeader(*v),
            OxiH5Error::UnsupportedDatatype(v) => ErrorKind::UnsupportedDatatype(*v),
            OxiH5Error::UnsupportedLayout(v) => ErrorKind::UnsupportedLayout(*v),
            OxiH5Error::NotFound(_) => ErrorKind::NotFound,
            OxiH5Error::TypeMismatch => ErrorKind::TypeMismatch,
            OxiH5Error::DataTruncated => ErrorKind::DataTruncated,
            OxiH5Error::NotImplemented(_) => ErrorKind::NotImplemented,
            OxiH5Error::Format(_) => ErrorKind::Format,
            OxiH5Error::UnsupportedFilter(_) => ErrorKind::UnsupportedFilter,
            OxiH5Error::Corrupted(_) => ErrorKind::Corrupted,
        }
    }
}

/// Whether a text holds a phrase.
pub open spec fn holds_phrase(text: Seq<char>, phrase: Seq<char>) -> bool {
    exists|before: Seq<char>, after: Seq<char>| text == #[trigger] (before + phrase + after)
}

impl OxiH5Error {
    /// The explanatory text, where the error has one.
    pub open spec fn explanation(self) -> Seq<char> {
        match self {
            OxiH5Error::Io(text) => text@,
            OxiH5Error::NotFound(text) => text@,
            OxiH5Error::NotImplemented(text) => text@,
            OxiH5Error::Format(text) => text@,
            OxiH5Error::UnsupportedFilter(text) => text@,
            OxiH5Error::Corrupted(text) => text@,
            _ => Seq::empty(),
        }
    }

    /// Whether the explanatory text holds a phrase.
    pub open spec fn says(self, phrase: Seq<char>) -> bool {
        holds_phrase(self.explanation(), phrase)
    }
}

/// What is written behind a text takes no phrase out of it.
pub proof fn lemma_phrase_stays(text: Seq<char>, rest: Seq<char>, phrase: Seq<char>)
    requires
        holds_phrase(text, phrase),
    ensures
        holds_phrase(text + rest, phrase),
{
    let (before, after) = choose|before: Seq<char>, after: Seq<char>|
        text == #[trigger] (before + phrase + after);
    assert(text + rest =~= before + phrase + (after + rest));
}

/// What a fallible function returned, as a mathematical value: the view of what
/// it produced, or the kind of its error.
pub open spec fn outcome<T: View>(r: Result<T, OxiH5Error>) -> Result<T::V, ErrorKind> {
    match r {
        Ok(value) => Ok(value@),
        Err(e) => Err(e@),
    }
}

/// As [`outcome`], for a list: the views of its elements.
pub open spec fn outcomes<T: View>(r: Result<Vec<T>, OxiH5Error>) -> Result<Seq<T::V>, ErrorKind> {
    match r {
        Ok(items) => Ok(views(items@)),
        Err(e) => Err(e@),
    }
}

/// The results of `f` at `0`, `1`, up to `n`, if there are `n` of them; otherwise
/// the first error.
pub open spec fn try_each<T>(n: nat, f: spec_fn(int) -> Result<T, ErrorKind>) -> Result<
    Seq<T>,
    ErrorKind,
>
    decreases n,
{
    if n == 0 {
        Ok(Seq::empty())
    } else {
        match try_each((n - 1) as nat, f) {
            Ok(items) => match f(n - 1) {
                Ok(item) => Ok(items.push(item)),
                Err(kind) => Err(kind),
            },
            Err(kind) => Err(kind),
        }
    }
}

/// An error among the first results is the error of the whole.
pub proof fn lemma_try_each_fails<T>(m: nat, n: nat, f: spec_fn(int) -> Result<T, ErrorKind>)
    requires
        m <= n,
        try_each(m, f) is Err,
    ensures
        try_each(n, f) == try_each(m, f),
    decreases n,
{
    if m < n {
        lemma_try_each_fails(m, (n - 1) as nat, f);
    }
}

/// The strings of `parts`, one after the other.
pub open spec fn joined(parts: Seq<&str>) -> Seq<char>
    decreases parts.len(),
{
    if parts.len() == 0 {
        Seq::empty()
    } else {
        joined(parts.drop_last()) + parts.last()@
    }
}

/// Compose a message from its parts.
pub fn text(parts: &[&str]) -> (r: String)
    ensures
        r@ == joined(parts@),
{
    let mut out = String::new();
    proof {
        assert(parts@.take(0).len() == 0);
    }
    for i in 0..parts.len()
        invariant
            out@ == joined(parts@.take(i as int)),
    {
        proof {
            assert(parts@.take(i as int + 1).drop_last() =~= parts@.take(i as int));
        }
        out.append(parts[i]);
    }
    proof {
        assert(parts@.take(parts@.len() as int) =~= parts@);
    }
    out
}

/// Compose a message around a phrase.
pub fn text_around(before: &[&str], phrase: &str, after: &[&str]) -> (r: String)
    ensures
        r@ == joined(before@) + phrase@ + joined(after@),
        holds_phrase(r@, phrase@),
{
    let mut out: String = text(before);
    out.append(phrase);
    let rest: String = text(after);
    out.append(rest.as_str());
    out
}

} // verus!
