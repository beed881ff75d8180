//! Paths: names separated by slashes.

use vstd::prelude::*;
use vstd::string::StrSliceExecFns;
use crate::dtype::views;

verus! {

/// The first position from `from` on that holds a slash, or the length of `s`
/// where none does.
pub open spec fn slash_from(s: Seq<char>, from: int) -> int
    decreases s.len() - from,
{
    if from >= s.len() {
        s.len() as int
    } else if s[from] == '/' {
        from
    } else {
        slash_from(s, from + 1)
    }
}

/// The parts of `s` from `from` on between slashes.
pub open spec fn parts_from(s: Seq<char>, from: int) -> Seq<Seq<char>>
    decreases s.len() - from,
{
    let at = slash_from(s, from);
    if from < 0 || from > s.len() || at < from || at >= s.len() {
        seq![s.subrange(from, s.len() as int)]
    } else {
        seq![s.subrange(from, at)] + parts_from(s, at + 1)
    }
}

/// The parts of `s` between slashes.
pub open spec fn parts_of(s: Seq<char>) -> Seq<Seq<char>> {
    parts_from(s, 0)
}

/// Those of `parts` that are not empty.
pub open spec fn non_empty(parts: Seq<Seq<char>>) -> Seq<Seq<char>>
    decreases parts.len(),
{
    if parts.len() == 0 {
        Seq::empty()
    } else if parts.last().len() == 0 {
        non_empty(parts.drop_last())
    } else {
        non_empty(parts.drop_last()).push(parts.last())
    }
}

/// The names along a path, empty ones left out.
pub open spec fn names_along(path: Seq<char>) -> Seq<Seq<char>> {
    non_empty(parts_of(path))
}

/// `s` without one leading slash.
pub open spec fn without_slash(s: Seq<char>) -> Seq<char> {
    if s.len() > 0 && s[0] == '/' {
        s.skip(1)
    } else {
        s
    }
}

/// How many slashes `s` starts with.
pub open spec fn leading_slashes(s: Seq<char>) -> nat
    decreases s.len(),
{
    if s.len() > 0 && s[0] == '/' {
        1 + leading_slashes(s.skip(1))
    } else {
        0
    }
}

/// `s` without any leading slashes.
pub open spec fn without_slashes(s: Seq<char>) -> Seq<char> {
    s.skip(leading_slashes(s) as int)
}

proof fn lemma_slash_from(s: Seq<char>, from: int)
    requires
        0 <= from <= s.len(),
    ensures
        from <= slash_from(s, from) <= s.len(),
    decreases s.len() - from,
{
    if from < s.len() && s[from] != '/' {
        lemma_slash_from(s, from + 1);
    }
}

/// Split `s` at its slashes.
pub fn split_parts<'a>(s: &'a str) -> (r: Vec<&'a str>)
    ensures
        views(r@) == parts_of(s@),
        r@.len() >= 1,
{
    let n: usize = s.unicode_len();
    let mut parts: Vec<&'a str> = Vec::new();
    let mut from: usize = 0;
    let mut at: usize = 0;
    let ghost all = parts_of(s@);
    proof {
        assert(views(parts@) + all =~= all);
    }
    while at < n
        invariant
            n == s@.len(),
            from <= at <= n,
            slash_from(s@, from as int) == slash_from(s@, at as int),
            all == parts_of(s@),
            views(parts@) + parts_from(s@, from as int) == all,
        decreases n - at,
    {
        if s.get_char(at) == '/' {
            let ghost before = views(parts@);
            let part = s.substring_char(from, at);
            parts.push(part);
            proof {
                assert(views(parts@) =~= before.push(part@));
                let rest = parts_from(s@, at + 1);
                assert(before + (seq![part@] + rest) =~= views(parts@) + rest);
            }
            from = at + 1;
        }
        at += 1;
    }
    let ghost before = views(parts@);
    let part = s.substring_char(from, n);
    parts.push(part);
    proof {
        assert(views(parts@) =~= before + seq![part@]);
    }
    parts
}

/// The names along a path, empty ones left out.
pub fn split_names<'a>(path: &'a str) -> (r: Vec<&'a str>)
    ensures
        views(r@) == names_along(path@),
{
    let parts: Vec<&'a str> = split_parts(path);
    let ghost all = views(parts@);
    let mut names: Vec<&'a str> = Vec::new();
    proof {
        assert(all.take(0) =~= Seq::<Seq<char>>::empty());
        assert(views(names@) =~= Seq::empty());
    }
    for i in 0..parts.len()
        invariant
            all == views(parts@),
            views(names@) == non_empty(all.take(i as int)),
    {
        let ghost before = views(names@);
        proof {
            assert(all.take(i + 1).drop_last() =~= all.take(i as int));
            assert(all.take(i + 1).last() == parts@[i as int]@);
        }
        if parts[i].unicode_len() > 0 {
            names.push(parts[i]);
            proof {
                assert(views(names@) =~= before.push(parts@[i as int]@));
            }
        }
    }
    proof {
        assert(all.take(parts@.len() as int) =~= all);
    }
    names
}

/// Drop one leading slash.
pub fn strip_slash<'a>(s: &'a str) -> (r: &'a str)
    ensures
        r@ == without_slash(s@),
{
    let n: usize = s.unicode_len();
    if n > 0 && s.get_char(0) == '/' {
        let r = s.substring_char(1, n);
        proof {
            assert(r@ =~= s@.skip(1));
        }
        r
    } else {
        s
    }
}

/// Drop all leading slashes.
pub fn strip_slashes<'a>(s: &'a str) -> (r: &'a str)
    ensures
        r@ == without_slashes(s@),
{
    let n: usize = s.unicode_len();
    let mut at: usize = 0;
    proof {
        assert(s@.skip(0) =~= s@);
    }
    while at < n && s.get_char(at) == '/'
        invariant
            at <= n,
            n == s@.len(),
            leading_slashes(s@) == at + leading_slashes(s@.skip(at as int)),
        decreases n - at,
    {
        proof {
            assert(s@.skip(at as int).skip(1) =~= s@.skip(at + 1));
        }
        at += 1;
    }
    let r = s.substring_char(at, n);
    proof {
        assert(at == n ==> s@.skip(at as int).len() == 0);
        assert(r@ =~= s@.skip(at as int));
    }
    r
}

} // verus!
