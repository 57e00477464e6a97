//! The response-side `Set-Cookie` store: per-name values with their
//! cookie attributes, parsed from and rendered to header values.

use vstd::prelude::*;

use crate::http::kv::kv_distinct;
use crate::http::kv::kv_map;
use crate::http::kv::lemma_kv_absent_push;
use crate::http::kv::lemma_kv_lookup;
use crate::http::kv::lemma_kv_remove_push;
use crate::http::kv::lemma_kv_removed;
use crate::text::lower_seq;
use crate::text::parse_i64;
use crate::text::spec_parse_i64;
use crate::text::split_seq;
use crate::text::split_str;
use crate::text::starts_with_str;
use crate::text::str_eq;
use crate::text::to_ascii_lower;
use crate::text::trim_seq;
use crate::text::trim_str;
use crate::text::dec_str_signed;
use crate::text::i64_to_string;

verus! {

/// The attributes a `Set-Cookie` value carries besides the pair itself.
#[derive(Clone, Debug, PartialEq, Eq)]
pub struct SetCookieOptions {
    pub http_only: bool,
    pub secure: bool,
    /// Seconds.
    pub max_age: Option<i64>,
    pub domain: Option<String>,
    pub path: Option<String>,
}

/// The attribute record as mathematics: strings as character sequences.
pub struct OptionsModel {
    pub http_only: bool,
    pub secure: bool,
    pub max_age: Option<int>,
    pub domain: Option<Seq<char>>,
    pub path: Option<Seq<char>>,
}

impl View for SetCookieOptions {
    type V = OptionsModel;

    open spec fn view(&self) -> OptionsModel {
        OptionsModel {
            http_only: self.http_only,
            secure: self.secure,
            max_age: match self.max_age {
                Some(a) => Some(a as int),
                None => None,
            },
            domain: match self.domain {
                Some(ref d) => Some(d@),
                None => None,
            },
            path: match self.path {
                Some(ref p) => Some(p@),
                None => None,
            },
        }
    }
}

/// The record with nothing set.
pub open spec fn default_options_model() -> OptionsModel {
    OptionsModel { http_only: false, secure: false, max_age: None, domain: None, path: None }
}

/// Whether `p` is a prefix of `s`.
pub open spec fn has_prefix(s: Seq<char>, p: Seq<char>) -> bool {
    p.len() <= s.len() && s.take(p.len() as int) == p
}

/// Whether a trimmed fragment is one of the known cookie attributes
/// rather than the `name=value` pair, compared ASCII-case-insensitively.
pub open spec fn spec_is_option(s: Seq<char>) -> bool {
    let low = lower_seq(s);
    ||| has_prefix(low, "max-age="@)
    ||| has_prefix(low, "domain="@)
    ||| has_prefix(low, "path="@)
    ||| low == "httponly"@
    ||| low == "secure"@
}

/// One attribute fragment folded into the record, the way the header
/// grammar reads it: the fragment is lowercased, the value is the
/// part between the first and second `=`, an unparsable age counts as
/// zero, and a bare `httponly`/`secure` prefix switches the flag on.
pub open spec fn apply_option(m: OptionsModel, frag: Seq<char>) -> OptionsModel {
    let st = lower_seq(frag);
    if has_prefix(st, "domain="@) {
        OptionsModel {
            http_only: m.http_only,
            secure: m.secure,
            max_age: m.max_age,
            domain: Some(split_seq(st, '=')[1]),
            path: m.path,
        }
    } else if has_prefix(st, "max-age="@) {
        OptionsModel {
            http_only: m.http_only,
            secure: m.secure,
            max_age: Some(
                match spec_parse_i64(split_seq(st, '=')[1]) {
                    Some(v) => v as int,
                    None => 0,
                },
            ),
            domain: m.domain,
            path: m.path,
        }
    } else if has_prefix(st, "path="@) {
        OptionsModel {
            http_only: m.http_only,
            secure: m.secure,
            max_age: m.max_age,
            domain: m.domain,
            path: Some(split_seq(st, '=')[1]),
        }
    } else if has_prefix(st, "httponly"@) {
        OptionsModel {
            http_only: true,
            secure: m.secure,
            max_age: m.max_age,
            domain: m.domain,
            path: m.path,
        }
    } else if has_prefix(st, "secure"@) {
        OptionsModel {
            http_only: m.http_only,
            secure: true,
            max_age: m.max_age,
            domain: m.domain,
            path: m.path,
        }
    } else {
        m
    }
}

/// The record collected from the first `i` fragments, in order.
pub open spec fn options_model_upto(frags: Seq<Seq<char>>, i: int) -> OptionsModel
    decreases i,
{
    if i <= 0 {
        default_options_model()
    } else {
        apply_option(options_model_upto(frags, i - 1), frags[i - 1])
    }
}

impl SetCookieOptions {
    pub fn new() -> (r: Self)
        ensures
            r@ == default_options_model(),
    {
        SetCookieOptions { http_only: false, secure: false, max_age: None, domain: None, path: None }
    }

    /// Whether a trimmed fragment is a cookie attribute rather than the
    /// `name=value` pair.
    pub fn is_set_cookie_option(st: &str) -> (r: bool)
        ensures
            r == spec_is_option(st@),
    {
        let low = to_ascii_lower(st);
        starts_with_str(low.as_str(), "max-age=") || starts_with_str(low.as_str(), "domain=")
            || starts_with_str(low.as_str(), "path=") || str_eq(low.as_str(), "httponly")
            || str_eq(low.as_str(), "secure")
    }

    pub fn http_only(self, http_only: bool) -> (r: Self)
        ensures
            r@ == (OptionsModel { http_only, ..self@ }),
    {
        let mut this = self;
        this.http_only = http_only;
        this
    }

    pub fn secure(self, secure: bool) -> (r: Self)
        ensures
            r@ == (OptionsModel { secure, ..self@ }),
    {
        let mut this = self;
        this.secure = secure;
        this
    }

    pub fn max_age(self, max_age: i64) -> (r: Self)
        ensures
            r@ == (OptionsModel { max_age: Some(max_age as int), ..self@ }),
    {
        let mut this = self;
        this.max_age = Some(max_age);
        this
    }

    pub fn domain(self, domain: &str) -> (r: Self)
        ensures
            r@ == (OptionsModel { domain: Some(domain@), ..self@ }),
    {
        let mut this = self;
        this.domain = Some(String::from_str(domain));
        this
    }

    pub fn path(self, path: &str) -> (r: Self)
        ensures
            r@ == (OptionsModel { path: Some(path@), ..self@ }),
    {
        let mut this = self;
        this.path = Some(String::from_str(path));
        this
    }

    /// Folds a list of attribute fragments into one record, first to
    /// last.
    pub fn from_fragments(xs: &Vec<String>) -> (r: Self)
        ensures
            r@ == options_model_upto(xs@.map_values(|t: String| t@), xs@.len() as int),
    {
        let ghost views = xs@.map_values(|t: String| t@);
        let mut r = SetCookieOptions::new();
        let mut i: usize = 0;
        let n = xs.len();
        while i < n
            invariant
                n == xs@.len(),
                views == xs@.map_values(|t: String| t@),
                0 <= i <= n,
                r@ == options_model_upto(views, i as int),
            decreases n - i,
        {
            let ghost prev = r@;
            let ghost frag = views[i as int];
            let st = to_ascii_lower(xs[i].as_str());
            proof {
                assert(views[i as int] == xs@[i as int]@);
                assert(st@ == lower_seq(frag));
            }
            if starts_with_str(st.as_str(), "domain=") {
                proof {
                    reveal_strlit("domain=");
                    assert(st@.take(7int)[6] == '=');
                    assert(st@[6] == '=');
                    crate::text::lemma_split_seq_len2(st@, '=', 6);
                }
                let mut parts = split_str(st.as_str(), '=');
                let d = parts.remove(1);
                proof {
                    assert(d@ == split_seq(st@, '=')[1]);
                }
                r.domain = Some(d);
                proof {
                    assert(r@ == apply_option(prev, frag));
                }
            } else if starts_with_str(st.as_str(), "max-age=") {
                proof {
                    reveal_strlit("max-age=");
                    assert(st@.take(8int)[7] == '=');
                    assert(st@[7] == '=');
                    crate::text::lemma_split_seq_len2(st@, '=', 7);
                }
                let mut parts = split_str(st.as_str(), '=');
                let seg = parts.remove(1);
                proof {
                    assert(seg@ == split_seq(st@, '=')[1]);
                }
                let age = match parse_i64(seg.as_str()) {
                    Some(v) => v,
                    None => 0,
                };
                r.max_age = Some(age);
                proof {
                    assert(r@ == apply_option(prev, frag));
                }
            } else if starts_with_str(st.as_str(), "path=") {
                proof {
                    reveal_strlit("path=");
                    assert(st@.take(5int)[4] == '=');
                    assert(st@[4] == '=');
                    crate::text::lemma_split_seq_len2(st@, '=', 4);
                }
                let mut parts = split_str(st.as_str(), '=');
                let p = parts.remove(1);
                proof {
                    assert(p@ == split_seq(st@, '=')[1]);
                }
                r.path = Some(p);
                proof {
                    assert(r@ == apply_option(prev, frag));
                }
            } else if starts_with_str(st.as_str(), "httponly") {
                r.http_only = true;
                proof {
                    assert(r@ == apply_option(prev, frag));
                }
            } else if starts_with_str(st.as_str(), "secure") {
                r.secure = true;
                proof {
                    assert(r@ == apply_option(prev, frag));
                }
            } else {
                proof {
                    assert(r@ == apply_option(prev, frag));
                }
            }
            i = i + 1;
        }
        r
    }
}

/// Whether fragment `i` is where the `name=value` pair sits: the first
/// fragment that is not a recognized attribute, or `i` itself when every
/// fragment among the first `i` is an attribute.
pub open spec fn first_kv_upto(fs: Seq<Seq<char>>, i: int) -> int
    decreases i,
{
    if i <= 0 {
        0
    } else {
        let p = first_kv_upto(fs, i - 1);
        if p < i - 1 {
            p
        } else if !spec_is_option(fs[i - 1]) {
            i - 1
        } else {
            i
        }
    }
}

/// The attribute fragments among the first `i`, in order.
pub open spec fn options_in(fs: Seq<Seq<char>>, i: int) -> Seq<Seq<char>>
    decreases i,
{
    if i <= 0 {
        Seq::empty()
    } else if spec_is_option(fs[i - 1]) {
        options_in(fs, i - 1).push(fs[i - 1])
    } else {
        options_in(fs, i - 1)
    }
}

/// The fragments of one `Set-Cookie` header value, trimmed.
pub open spec fn trimmed_frags(s: Seq<char>) -> Seq<Seq<char>> {
    split_seq(s, ';').map_values(|f: Seq<char>| trim_seq(f))
}

/// What one `Set-Cookie` header value contributes: the first
/// non-attribute fragment's `name=value` pair together with the folded
/// attributes, or nothing when no fragment carries a `=`-separated pair.
pub open spec fn header_entry(s: Seq<char>) -> Option<(Seq<char>, (Seq<char>, OptionsModel))> {
    let fs = trimmed_frags(s);
    let p = first_kv_upto(fs, fs.len() as int);
    if p == fs.len() {
        None
    } else {
        let parts = split_seq(fs[p], '=');
        if parts.len() >= 2 {
            Some((parts[0], (parts[1], options_model_upto(options_in(fs, fs.len() as int), options_in(fs, fs.len() as int).len() as int))))
        } else {
            None
        }
    }
}

/// The map collected from the first `i` header values; later headers win
/// on a repeated name.
pub open spec fn headers_map_upto(hs: Seq<Seq<char>>, i: int) -> Map<
    Seq<char>,
    (Seq<char>, OptionsModel),
>
    decreases i,
{
    if i <= 0 {
        Map::empty()
    } else {
        let m = headers_map_upto(hs, i - 1);
        match header_entry(hs[i - 1]) {
            Some(e) => m.insert(e.0, e.1),
            None => m,
        }
    }
}

/// The `Set-Cookie` headers of one response: a value and its attributes
/// under each cookie name.
#[derive(Debug, PartialEq, Eq)]
pub struct SetCookie {
    pairs: Vec<(String, String, SetCookieOptions)>,
}

impl View for SetCookie {
    type V = Map<Seq<char>, (Seq<char>, OptionsModel)>;

    closed spec fn view(&self) -> Map<Seq<char>, (Seq<char>, OptionsModel)> {
        kv_map(self.entries())
    }
}

impl SetCookie {
    /// The stored entries, as views, in storage order.
    pub closed spec fn entries(&self) -> Seq<(Seq<char>, (Seq<char>, OptionsModel))> {
        self.pairs@.map_values(|p: (String, String, SetCookieOptions)| (p.0@, (p.1@, p.2@)))
    }

    /// Every stored name occurs once.
    pub open spec fn wf(&self) -> bool {
        kv_distinct(self.entries())
    }

    pub fn new() -> (r: Self)
        ensures
            r@ =~= Map::<Seq<char>, (Seq<char>, OptionsModel)>::empty(),
            r.wf(),
            r.entries() =~= Seq::<(Seq<char>, (Seq<char>, OptionsModel))>::empty(),
    {
        SetCookie { pairs: Vec::new() }
    }

    /// Whether nothing is stored; with a well-formed store this is
    /// exactly an empty map.
    pub fn is_empty(&self) -> (r: bool)
        requires
            self.wf(),
        ensures
            r == (self.entries().len() == 0),
            r == (self@ =~= Map::<Seq<char>, (Seq<char>, OptionsModel)>::empty()),
    {
        let r = self.pairs.len() == 0;
        proof {
            if self.entries().len() > 0 {
                lemma_kv_lookup(self.entries(), self.entries()[0].0, self.entries().len() as int);
                assert(self@.contains_key(self.entries()[0].0));
            } else {
                assert(self@ =~= Map::<Seq<char>, (Seq<char>, OptionsModel)>::empty());
            }
        }
        r
    }

    /// Inserts a cookie, replacing value and attributes if the name is
    /// already present.
    #[verifier::loop_isolation(false)]
    pub fn set(self, key: &str, value: &str, options: SetCookieOptions) -> (r: Self)
        requires
            self.wf(),
        ensures
            r.wf(),
            r@ =~= self@.insert(key@, (value@, options@)),
    {
        let mut this = self;
        let ghost pre = this.entries();
        let ghost oview = options@;
        let mut j: usize = 0;
        let n = this.pairs.len();
        while j < n
            invariant
                n == this.pairs@.len(),
                0 <= j <= n,
                this.entries() == pre,
                this.wf(),
                forall|t: int| 0 <= t < j ==> (#[trigger] this.entries()[t]).0 != key@,
            decreases n - j,
        {
            if str_eq(this.pairs[j].0.as_str(), key) {
                this.pairs.remove(j);
                this.pairs.push((String::from_str(key), String::from_str(value), options));
                proof {
                    lemma_kv_remove_push(pre, j as int, key@, (value@, oview));
                    assert(this.entries() =~= pre.remove(j as int).push((key@, (value@, oview))));
                }
                return this;
            }
            j = j + 1;
        }
        this.pairs.push((String::from_str(key), String::from_str(value), options));
        proof {
            assert(this.entries() =~= pre.push((key@, (value@, oview))));
            lemma_kv_absent_push(pre, key@, (value@, oview));
        }
        this
    }

    /// Drops a name; names that are absent are left alone.
    #[verifier::loop_isolation(false)]
    pub fn remove(self, key: &str) -> (r: Self)
        requires
            self.wf(),
        ensures
            r.wf(),
            r@ =~= self@.remove(key@),
    {
        let mut this = self;
        let ghost pre = this.entries();
        let mut j: usize = 0;
        let n = this.pairs.len();
        while j < n
            invariant
                n == this.pairs@.len(),
                0 <= j <= n,
                this.entries() == pre,
                this.wf(),
                forall|t: int| 0 <= t < j ==> (#[trigger] this.entries()[t]).0 != key@,
            decreases n - j,
        {
            if str_eq(this.pairs[j].0.as_str(), key) {
                this.pairs.remove(j);
                proof {
                    assert(this.entries() =~= pre.remove(j as int));
                    lemma_kv_removed(pre, j as int, key@);
                }
                return this;
            }
            j = j + 1;
        }
        proof {
            lemma_kv_lookup(pre, key@, pre.len() as int);
            assert(this@ =~= self@.remove(key@));
        }
        this
    }

    /// The stored value under `key`, without its attributes.
    #[verifier::loop_isolation(false)]
    pub fn get(&self, key: &str) -> (r: Option<&str>)
        requires
            self.wf(),
        ensures
            match r {
                Some(v) => self@.contains_key(key@) && v@ == self@[key@].0,
                None => !self@.contains_key(key@),
            },
    {
        let n = self.pairs.len();
        let mut j: usize = 0;
        while j < n
            invariant
                n == self.pairs@.len(),
                0 <= j <= n,
                forall|t: int| 0 <= t < j ==> (#[trigger] self.entries()[t]).0 != key@,
            decreases n - j,
        {
            if str_eq(self.pairs[j].0.as_str(), key) {
                proof {
                    lemma_kv_lookup(self.entries(), key@, self.entries().len() as int);
                    assert(self.entries()[j as int].0 == key@);
                }
                return Some(self.pairs[j].1.as_str());
            }
            j = j + 1;
        }
        proof {
            lemma_kv_lookup(self.entries(), key@, self.entries().len() as int);
        }
        None
    }

    /// Removes and returns the value stored under `key`, without its
    /// attributes.
    #[verifier::loop_isolation(false)]
    pub fn take(&mut self, key: &str) -> (r: Option<String>)
        requires
            old(self).wf(),
        ensures
            final(self).wf(),
            final(self)@ =~= old(self)@.remove(key@),
            match r {
                Some(v) => old(self)@.contains_key(key@) && v@ == old(self)@[key@].0,
                None => !old(self)@.contains_key(key@),
            },
    {
        let ghost pre = self.entries();
        let n = self.pairs.len();
        let mut j: usize = 0;
        while j < n
            invariant
                n == self.pairs@.len(),
                self.entries() == pre,
                self.wf(),
                0 <= j <= n,
                forall|t: int| 0 <= t < j ==> (#[trigger] self.entries()[t]).0 != key@,
            decreases n - j,
        {
            if str_eq(self.pairs[j].0.as_str(), key) {
                let pair = self.pairs.remove(j);
                proof {
                    lemma_kv_lookup(pre, key@, pre.len() as int);
                    assert(pre[j as int].0 == key@);
                    assert(pre[j as int].1.0 == pair.1@);
                    assert(self.entries() =~= pre.remove(j as int));
                    lemma_kv_removed(pre, j as int, key@);
                }
                return Some(pair.1);
            }
            j = j + 1;
        }
        proof {
            lemma_kv_lookup(pre, key@, pre.len() as int);
            assert(self@ =~= old(self)@.remove(key@));
        }
        None
    }

    /// Parses the given `Set-Cookie` header values into one store; later
    /// values win on a repeated name. Each value's fragments are split on
    /// `;` and trimmed; the first non-attribute fragment carries the
    /// `name=value` pair and the attribute fragments are folded in order.
    #[verifier::loop_isolation(false)]
    pub fn from_header_values(values: &Vec<String>) -> (r: Self)
        ensures
            r.wf(),
            r@ =~= headers_map_upto(
                values@.map_values(|t: String| t@),
                values@.len() as int,
            ),
    {
        let ghost hviews = values@.map_values(|t: String| t@);
        let mut r = SetCookie::new();
        let mut h: usize = 0;
        let hn = values.len();
        while h < hn
            invariant
                hn == values@.len(),
                hviews == values@.map_values(|t: String| t@),
                0 <= h <= hn,
                r.wf(),
                r@ =~= headers_map_upto(hviews, h as int),
            decreases hn - h,
        {
            let ghost hs = hviews[h as int];
            let raw = split_str(values[h].as_str(), ';');
            let ghost raw_views = raw@.map_values(|t: String| t@);
            // Trim every fragment.
            let mut frags: Vec<String> = Vec::new();
            let mut t: usize = 0;
            let fn_ = raw.len();
            while t < fn_
                invariant
                    fn_ == raw@.len(),
                    raw_views == raw@.map_values(|t0: String| t0@),
                    0 <= t <= fn_,
                    frags@.len() == t,
                    forall|q: int|
                        0 <= q < t ==> (#[trigger] frags@[q])@ == trim_seq(raw_views[q]),
                decreases fn_ - t,
            {
                frags.push(trim_str(raw[t].as_str()));
                t = t + 1;
            }
            let ghost fviews = frags@.map_values(|t0: String| t0@);
            proof {
                assert(fviews =~= trimmed_frags(hs));
            }
            // One pass: collect attribute fragments, remember the first
            // candidate pair fragment.
            let mut opts: Vec<String> = Vec::new();
            let mut kv_frag: Option<&String> = None;
            let mut f: usize = 0;
            let fcount = frags.len();
            while f < fcount
                invariant
                    fcount == frags@.len(),
                    fviews == frags@.map_values(|t0: String| t0@),
                    0 <= f <= fcount,
                    opts@.map_values(|t0: String| t0@) =~= options_in(fviews, f as int),
                    match kv_frag {
                        Some(kf) => {
                            &&& first_kv_upto(fviews, f as int) < f
                            &&& kf@ == fviews[first_kv_upto(fviews, f as int)]
                        },
                        None => first_kv_upto(fviews, f as int) == f,
                    },
                decreases fcount - f,
            {
                let frag_ref = &frags[f];
                if SetCookieOptions::is_set_cookie_option(frag_ref.as_str()) {
                    opts.push(frag_ref.clone());
                } else if kv_frag.is_none() {
                    kv_frag = Some(frag_ref);
                }
                f = f + 1;
            }
            // Fold the attributes and insert the pair, if one was found.
            match kv_frag {
                Some(kf) => {
                    let parts = split_str(kf.as_str(), '=');
                    if parts.len() >= 2 {
                        let options = SetCookieOptions::from_fragments(&opts);
                        let key = &parts[0];
                        let value = &parts[1];
                        proof {
                            assert(header_entry(hs) == Some((key@, (value@, options@))));
                        }
                        r = r.set(key.as_str(), value.as_str(), options);
                    } else {
                        proof {
                            assert(header_entry(hs) is None);
                        }
                    }
                },
                None => {
                    proof {
                        assert(header_entry(hs) is None);
                    }
                },
            }
            h = h + 1;
        }
        r
    }

    /// Collects the store from a response's headers: the `Set-Cookie`
    /// values are read through the trusted header boundary and parsed as
    /// [`SetCookie::from_header_values`] describes.
    pub fn from_headers(headers: &http::HeaderMap) -> (r: Self)
        ensures
            r.wf(),
    {
        let values = crate::http::headers::set_cookie_header_values(headers);
        SetCookie::from_header_values(&values)
    }

    /// The stored entries rendered as `Set-Cookie` header values, in
    /// storage order.
    pub fn iter(&self) -> (r: Vec<String>)
        ensures
            r@.map_values(|t: String| t@) =~= self.entries().map_values(
                |e: (Seq<char>, (Seq<char>, OptionsModel))| fmt_spec(e.0, e.1.0, e.1.1),
            ),
    {
        let mut out: Vec<String> = Vec::new();
        let mut j: usize = 0;
        let n = self.pairs.len();
        while j < n
            invariant
                n == self.pairs@.len(),
                0 <= j <= n,
                out@.len() == j,
                forall|t: int|
                    0 <= t < j ==> (#[trigger] out@[t])@ == fmt_spec(
                        self.entries()[t].0,
                        self.entries()[t].1.0,
                        self.entries()[t].1.1,
                    ),
            decreases n - j,
        {
            let entry = &self.pairs[j];
            let line = fmt(entry.0.as_str(), entry.1.as_str(), &entry.2);
            out.push(line);
            j = j + 1;
        }
        out
    }
}


/// The rendered `Set-Cookie` value for one entry: the pair, then each
/// attribute that is set, in the fixed order the writer uses.
pub open spec fn fmt_spec(key: Seq<char>, value: Seq<char>, o: OptionsModel) -> Seq<char> {
    let base = key + "="@ + value;
    let with_domain = match o.domain {
        Some(d) => base + "; Domain="@ + d,
        None => base,
    };
    let with_age = match o.max_age {
        Some(a) => with_domain + "; Max-Age="@ + dec_str_signed(a),
        None => with_domain,
    };
    let with_path = match o.path {
        Some(p) => with_age + "; Path="@ + p,
        None => with_age,
    };
    let with_http = if o.http_only {
        with_path + "; HttpOnly"@
    } else {
        with_path
    };
    if o.secure {
        with_http + "; Secure"@
    } else {
        with_http
    }
}

/// Renders one entry as a `Set-Cookie` header value.
pub fn fmt(key: &str, value: &str, options: &SetCookieOptions) -> (r: String)
    ensures
        r@ == fmt_spec(key@, value@, options@),
{
    let mut base = String::from_str(key);
    base.append("=");
    base.append(value);
    match options.domain {
        Some(ref d) => {
            base.append("; Domain=");
            base.append(d.as_str());
        },
        None => {},
    }
    match options.max_age {
        Some(a) => {
            base.append("; Max-Age=");
            let digits = i64_to_string(a);
            base.append(digits.as_str());
        },
        None => {},
    }
    match options.path {
        Some(ref p) => {
            base.append("; Path=");
            base.append(p.as_str());
        },
        None => {},
    }
    if options.http_only {
        base.append("; HttpOnly");
    }
    if options.secure {
        base.append("; Secure");
    }
    base
}


impl Default for SetCookieOptions {
    fn default() -> (r: Self)
        ensures
            r@ == default_options_model(),
    {
        SetCookieOptions::new()
    }
}

} // verus!
