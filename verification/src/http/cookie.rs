//! The request-side `Cookie` header: a name-to-value map parsed from the
//! `key=value; key2=value2` form.

use vstd::prelude::*;

use crate::http::kv::kv_distinct;
use crate::http::kv::kv_map;
use crate::http::kv::lemma_kv_absent_push;
use crate::http::kv::lemma_kv_lookup;
use crate::http::kv::lemma_kv_remove_push;
use crate::http::kv::lemma_kv_removed;
use crate::text::split_seq;
use crate::text::split_str;
use crate::text::str_eq;
use crate::text::trim_seq;
use crate::text::trim_str;

verus! {

/// The name and value a `key=value` fragment carries: the name is the
/// part before the first `=`, trimmed; the value is the part between the
/// first and second `=`, untrimmed, or empty when there is no `=`.
pub open spec fn cookie_entry(piece: Seq<char>) -> (Seq<char>, Seq<char>) {
    let parts = split_seq(piece, '=');
    (trim_seq(parts[0]), if parts.len() >= 2 {
        parts[1]
    } else {
        Seq::empty()
    })
}

/// The map collected from the first `i` fragments; later fragments win
/// on a repeated name.
pub open spec fn cookie_map_upto(pieces: Seq<Seq<char>>, i: int) -> Map<Seq<char>, Seq<char>>
    decreases i,
{
    if i <= 0 {
        Map::empty()
    } else {
        cookie_map_upto(pieces, i - 1).insert(
            cookie_entry(pieces[i - 1]).0,
            cookie_entry(pieces[i - 1]).1,
        )
    }
}

/// What parsing a whole `Cookie` header value yields.
pub open spec fn cookie_map_of(s: Seq<char>) -> Map<Seq<char>, Seq<char>> {
    cookie_map_upto(split_seq(s, ';'), split_seq(s, ';').len() as int)
}

/// The name-to-value pairs of one request's `Cookie` header.
pub struct Cookie {
    pairs: Vec<(String, String)>,
}

impl View for Cookie {
    type V = Map<Seq<char>, Seq<char>>;

    closed spec fn view(&self) -> Map<Seq<char>, Seq<char>> {
        kv_map(self.entries())
    }
}

impl Cookie {
    /// The stored pairs, as views, in storage order.
    pub closed spec fn entries(&self) -> Seq<(Seq<char>, Seq<char>)> {
        self.pairs@.map_values(|p: (String, String)| (p.0@, p.1@))
    }

    /// Every stored name occurs once.
    pub open spec fn wf(&self) -> bool {
        kv_distinct(self.entries())
    }

    pub fn new() -> (r: Self)
        ensures
            r@ =~= Map::<Seq<char>, Seq<char>>::empty(),
            r.wf(),
    {
        Cookie { pairs: Vec::new() }
    }

    /// Inserts a name, replacing the value if the name is present.
    #[verifier::loop_isolation(false)]
    pub fn add(&mut self, key: &str, value: &str)
        requires
            old(self).wf(),
        ensures
            final(self).wf(),
            final(self)@ =~= old(self)@.insert(key@, value@),
    {
        let ghost pre = self.entries();
        let mut j: usize = 0;
        let n = self.pairs.len();
        while j < n
            invariant
                n == self.pairs@.len(),
                0 <= j <= n,
                self.entries() == pre,
                self.wf(),
                forall|t: int| 0 <= t < j ==> (#[trigger] self.entries()[t]).0 != key@,
            decreases n - j,
        {
            if str_eq(self.pairs[j].0.as_str(), key) {
                self.pairs.remove(j);
                self.pairs.push((String::from_str(key), String::from_str(value)));
                proof {
                    lemma_kv_remove_push(pre, j as int, key@, value@);
                    assert(self.entries() =~= pre.remove(j as int).push((key@, value@)));
                }
                return ;
            }
            j = j + 1;
        }
        self.pairs.push((String::from_str(key), String::from_str(value)));
        proof {
            assert(self.entries() =~= pre.push((key@, value@)));
            lemma_kv_absent_push(pre, key@, value@);
        }
    }




    /// The value stored under `key`, if the name is present.
    pub fn get(&self, key: &str) -> (r: Option<&str>)
        requires
            self.wf(),
        ensures
            match r {
                Some(v) => self@.contains_key(key@) && v@ == self@[key@],
                None => !self@.contains_key(key@),
            },
    {
        let n = self.pairs.len();
        let mut j: usize = 0;
        while j < n
            invariant
                n == self.pairs@.len(),
                0 <= j <= n,
                self.wf(),
                forall|t: int| 0 <= t < j ==> (#[trigger] self.entries()[t]).0 != key@,
            decreases n - j,
        {
            if str_eq(self.pairs[j].0.as_str(), key) {
                proof {
                    lemma_kv_lookup(self.entries(), key@, self.entries().len() as int);
                    assert(self.entries()[j as int].0 == key@);
                }
                return Some(self.pairs[j].1.as_str());
            }
            j = j + 1;
        }
        proof {
            lemma_kv_lookup(self.entries(), key@, self.entries().len() as int);
        }
        None
    }

    /// Removes and returns the value stored under `key`.
    #[verifier::loop_isolation(false)]
    pub fn take(&mut self, key: &str) -> (r: Option<String>)
        requires
            old(self).wf(),
        ensures
            final(self).wf(),
            final(self)@ =~= old(self)@.remove(key@),
            match r {
                Some(v) => old(self)@.contains_key(key@) && v@ == old(self)@[key@],
                None => !old(self)@.contains_key(key@),
            },
    {
        let ghost pre = self.entries();
        let n = self.pairs.len();
        let mut j: usize = 0;
        while j < n
            invariant
                n == self.pairs@.len(),
                self.entries() == pre,
                self.wf(),
                0 <= j <= n,
                forall|t: int| 0 <= t < j ==> (#[trigger] self.entries()[t]).0 != key@,
            decreases n - j,
        {
            if str_eq(self.pairs[j].0.as_str(), key) {
                let pair = self.pairs.remove(j);
                proof {
                    lemma_kv_lookup(pre, key@, pre.len() as int);
                    assert(pre[j as int].0 == key@);
                    assert(pre[j as int].1 == pair.1@);
                    assert(self.entries() =~= pre.remove(j as int));
                    lemma_kv_removed(pre, j as int, key@);
                }
                return Some(pair.1);
            }
            j = j + 1;
        }
        proof {
            lemma_kv_lookup(pre, key@, pre.len() as int);
            assert(self@ =~= old(self)@.remove(key@));
        }
        None
    }


    /// Collects the cookies from a request's headers: the `Cookie` value
    /// is read through the trusted header boundary and parsed as
    /// [`Cookie::parse`] describes; a missing or unreadable header reads
    /// as an empty value.
    pub fn from_headers(headers: &http::HeaderMap) -> (r: Self)
        ensures
            r.wf(),
    {
        let value = crate::http::headers::cookie_header_value(headers);
        match value {
            Some(v) => Cookie::parse(v.as_str()),
            None => Cookie::parse(""),
        }
    }

    /// Parses a whole `Cookie` header value: fragments separated by `;`,
    /// each carrying `name=value`; names are trimmed, later fragments win
    /// on a repeated name.
    pub fn parse(cookie_str: &str) -> (r: Self)
        ensures
            r.wf(),
            r@ =~= cookie_map_of(cookie_str@),
    {
        let pieces = split_str(cookie_str, ';');
        let ghost piece_views = pieces@.map_values(|t: String| t@);
        let mut r = Cookie::new();
        let mut i: usize = 0;
        let n = pieces.len();
        while i < n
            invariant
                n == pieces@.len(),
                piece_views == pieces@.map_values(|t: String| t@),
                0 <= i <= n,
                r.wf(),
                r@ =~= cookie_map_upto(piece_views, i as int),
            decreases n - i,
        {
            let piece = &pieces[i];
            let mut parts = split_str(piece.as_str(), '=');
            let ghost part_views = parts@.map_values(|t: String| t@);
            let ghost had_two = parts@.len() >= 2;
            let value = if parts.len() >= 2 {
                parts.remove(1)
            } else {
                String::new()
            };
            let key_part = parts.remove(0);
            let key = trim_str(key_part.as_str());
            proof {
                assert(piece_views[i as int] == piece@);
                assert(part_views == split_seq(piece@, '='));
                assert(key_part@ == part_views[0]);
                if had_two {
                    assert(value@ == part_views[1]);
                }
                assert(key@ == cookie_entry(piece@).0);
                assert(value@ == cookie_entry(piece@).1);
            }
            r.add(key.as_str(), value.as_str());
            i = i + 1;
        }
        proof {
            assert(r@ =~= cookie_map_of(cookie_str@));
        }
        r
    }
}

} // verus!
