//! Query-string parsing.
//!
//! A query string such as `a=1&b=2` is split on `&` into candidate pairs;
//! a candidate is kept only when splitting it on `=` yields exactly two
//! pieces, i.e. when it contains exactly one `=`. Later pairs with the same
//! key take precedence over earlier ones. No percent-decoding is performed:
//! keys and values are used verbatim.

use vstd::prelude::*;

verus! {

/// The pieces of `s` between occurrences of `sep`, in order.
///
/// The empty sequence yields one empty piece, and every occurrence of
/// `sep` ends the current piece and starts a new one, so the result has
/// one piece more than there are separators.
pub open spec fn split_on(s: Seq<char>, sep: char) -> Seq<Seq<char>>
    decreases s.len(),
{
    if s.len() == 0 {
        seq![Seq::<char>::empty()]
    } else if s.last() == sep {
        split_on(s.drop_last(), sep).push(Seq::<char>::empty())
    } else {
        let parts = split_on(s.drop_last(), sep);
        parts.update(parts.len() - 1, parts.last().push(s.last()))
    }
}

/// How often `sep` occurs in `s`.
pub open spec fn count_occurrences(s: Seq<char>, sep: char) -> nat
    decreases s.len(),
{
    if s.len() == 0 {
        0
    } else if s.last() == sep {
        count_occurrences(s.drop_last(), sep) + 1
    } else {
        count_occurrences(s.drop_last(), sep)
    }
}

pub proof fn lemma_split_on_len(s: Seq<char>, sep: char)
    ensures
        split_on(s, sep).len() == count_occurrences(s, sep) + 1,
    decreases s.len(),
{
    if s.len() > 0 {
        lemma_split_on_len(s.drop_last(), sep);
    }
}

/// The views of a sequence of strings.
pub open spec fn views_of(v: Seq<String>) -> Seq<Seq<char>> {
    Seq::new(v.len(), |i: int| v[i]@)
}

/// Splits `s` at every occurrence of `sep`, as `split_on` describes.
pub fn split_str(s: &str, sep: char) -> (parts: Vec<String>)
    ensures
        views_of(parts@) == split_on(s@, sep),
{
    let n = s.unicode_len();
    let mut parts: Vec<String> = Vec::new();
    let mut start: usize = 0;
    let mut i: usize = 0;
    proof {
        assert(s@.subrange(0, 0) =~= Seq::<char>::empty());
        assert(views_of(parts@).push(s@.subrange(0, 0)) =~~= split_on(s@.subrange(0, 0), sep));
    }
    while i < n
        invariant
            start <= i <= n,
            n == s@.len(),
            views_of(parts@).push(s@.subrange(start as int, i as int)) == split_on(
                s@.subrange(0, i as int),
                sep,
            ),
        decreases n - i,
    {
        let ghost prefix = s@.subrange(0, i as int);
        let ghost cur = s@.subrange(start as int, i as int);
        let c = s.get_char(i);
        proof {
            assert(s@.subrange(0, i + 1).drop_last() =~= prefix);
            assert(s@.subrange(0, i + 1).last() == c);
        }
        if c == sep {
            let piece = s.substring_char(start, i).to_owned();
            parts.push(piece);
            start = i + 1;
            proof {
                assert(s@.subrange(start as int, start as int) =~= Seq::<char>::empty());
                assert(views_of(parts@).push(s@.subrange(start as int, start as int)) =~~= split_on(
                    prefix,
                    sep,
                ).push(Seq::<char>::empty()));
            }
        } else {
            proof {
                let old_split = split_on(prefix, sep);
                assert(old_split.last() == cur);
                assert(cur.push(c) =~= s@.subrange(start as int, i + 1));
                assert(views_of(parts@).push(s@.subrange(start as int, i + 1)) =~~= old_split.update(
                    old_split.len() - 1,
                    old_split.last().push(c),
                ));
            }
        }
        i = i + 1;
    }
    let piece = s.substring_char(start, n).to_owned();
    parts.push(piece);
    proof {
        assert(s@.subrange(0, n as int) =~= s@);
        assert(views_of(parts@) =~~= split_on(s@, sep));
    }
    parts
}

/// The key/value pair a candidate yields, or `None` when the candidate is
/// dropped because it does not contain exactly one `=`.
pub open spec fn pair_of(part: Seq<char>) -> Option<(Seq<char>, Seq<char>)> {
    let pieces = split_on(part, '=');
    if pieces.len() == 2 {
        Some((pieces[0], pieces[1]))
    } else {
        None
    }
}

/// A candidate pair is kept exactly when it contains exactly one `=`.
pub proof fn lemma_pair_kept_iff_single_separator(part: Seq<char>)
    ensures
        pair_of(part) is Some <==> count_occurrences(part, '=') == 1,
{
    lemma_split_on_len(part, '=');
}

/// The key/value pairs the candidates yield, in order, dropped candidates
/// omitted.
pub open spec fn pairs_of(parts: Seq<Seq<char>>) -> Seq<(Seq<char>, Seq<char>)>
    decreases parts.len(),
{
    if parts.len() == 0 {
        Seq::empty()
    } else {
        let rest = pairs_of(parts.drop_last());
        match pair_of(parts.last()) {
            Some(p) => rest.push(p),
            None => rest,
        }
    }
}

/// The key/value pairs of a raw query string, in order.
pub open spec fn parse_query(q: Seq<char>) -> Seq<(Seq<char>, Seq<char>)> {
    pairs_of(split_on(q, '&'))
}

/// The pairs of a request's query string; an absent query string yields
/// no pairs.
pub open spec fn parsed_query(query: Option<&str>) -> Seq<(Seq<char>, Seq<char>)> {
    match query {
        Some(q) => parse_query(q@),
        None => Seq::empty(),
    }
}

/// The value bound to `key`, where a later pair with the same key
/// overwrites an earlier one.
pub open spec fn lookup(pairs: Seq<(Seq<char>, Seq<char>)>, key: Seq<char>) -> Option<Seq<char>>
    decreases pairs.len(),
{
    if pairs.len() == 0 {
        None
    } else if pairs.last().0 == key {
        Some(pairs.last().1)
    } else {
        lookup(pairs.drop_last(), key)
    }
}

/// The views of a sequence of string pairs.
pub open spec fn pair_views_of(ps: Seq<(String, String)>) -> Seq<(Seq<char>, Seq<char>)> {
    Seq::new(ps.len(), |i: int| (ps[i].0@, ps[i].1@))
}

/// The parameters of one request's query string, in the order the pairs
/// were kept.
pub struct QueryParams {
    pairs: Vec<(String, String)>,
}

impl View for QueryParams {
    type V = Seq<(Seq<char>, Seq<char>)>;

    closed spec fn view(&self) -> Seq<(Seq<char>, Seq<char>)> {
        pair_views_of(self.pairs@)
    }
}

impl QueryParams {
    /// How many pairs were kept.
    pub fn len(&self) -> (n: usize)
        ensures
            n == self@.len(),
    {
        self.pairs.len()
    }

    /// The value bound to `key`, the last pair winning, as `lookup`
    /// describes.
    pub fn get(&self, key: &str) -> (r: Option<&String>)
        ensures
            (match r {
                Some(v) => lookup(self@, key@) == Some(v@),
                None => lookup(self@, key@) is None,
            }),
    {
        let key_string = key.to_owned();
        let mut j: usize = self.pairs.len();
        proof {
            assert(self@.subrange(0, self@.len() as int) =~= self@);
        }
        while j > 0
            invariant
                j <= self.pairs.len(),
                key_string@ == key@,
                lookup(self@, key@) == lookup(self@.subrange(0, j as int), key@),
            decreases j,
        {
            j = j - 1;
            let ghost seen = self@.subrange(0, j + 1);
            proof {
                assert(seen.last() == self@[j as int]);
                assert(seen.drop_last() =~= self@.subrange(0, j as int));
            }
            if self.pairs[j].0 == key_string {
                return Some(&self.pairs[j].1);
            }
        }
        proof {
            assert(self@.subrange(0, 0) =~= Seq::<(Seq<char>, Seq<char>)>::empty());
        }
        None
    }
}

/// Parses a request's query string into its parameters, keeping exactly
/// the candidates with a single `=` and preserving their order.
pub fn parse_query_params(query: Option<&str>) -> (r: QueryParams)
    ensures
        r@ == parsed_query(query),
{
    let mut pairs: Vec<(String, String)> = Vec::new();
    match query {
        None => {
            proof {
                assert(pair_views_of(pairs@) =~~= parsed_query(query));
            }
        },
        Some(q) => {
            let parts = split_str(q, '&');
            let mut j: usize = 0;
            proof {
                assert(views_of(parts@).subrange(0, 0) =~= Seq::<Seq<char>>::empty());
                assert(pair_views_of(pairs@) =~~= pairs_of(views_of(parts@).subrange(0, 0)));
            }
            while j < parts.len()
                invariant
                    j <= parts.len(),
                    views_of(parts@) == split_on(q@, '&'),
                    pair_views_of(pairs@) == pairs_of(views_of(parts@).subrange(0, j as int)),
                decreases parts.len() - j,
            {
                let ghost done = views_of(parts@).subrange(0, j as int);
                let ghost part = views_of(parts@)[j as int];
                proof {
                    assert(views_of(parts@).subrange(0, j + 1).drop_last() =~= done);
                    assert(views_of(parts@).subrange(0, j + 1).last() == part);
                }
                let mut pieces = split_str(parts[j].as_str(), '=');
                if pieces.len() == 2 {
                    let value = pieces.pop().unwrap();
                    let name = pieces.pop().unwrap();
                    proof {
                        assert(name@ == split_on(part, '=')[0]);
                        assert(value@ == split_on(part, '=')[1]);
                    }
                    pairs.push((name, value));
                    proof {
                        assert(pair_views_of(pairs@) =~~= pairs_of(done).push(
                            (name@, value@),
                        ));
                    }
                }
                j = j + 1;
            }
            proof {
                assert(views_of(parts@).subrange(0, parts@.len() as int) =~= views_of(parts@));
            }
        },
    }
    QueryParams { pairs }
}

} // verus!
