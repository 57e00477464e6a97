//! Path-variable extraction: matching a request path against a route
//! pattern whose `:name` segments are variables.

use vstd::prelude::*;

use crate::text::split_seq;
use crate::text::split_str;

verus! {

/// Whether a pattern segment declares a variable.
pub open spec fn spec_is_path_variable(s: Seq<char>) -> bool {
    s.len() > 0 && s[0] == ':'
}

pub fn is_path_variable(st: &str) -> (r: bool)
    ensures
        r == spec_is_path_variable(st@),
{
    let n = st.unicode_len();
    n > 0 && st.get_char(0) == ':'
}

/// The request segments standing at the pattern's variable positions,
/// taken from the first `i` pattern segments, in order.
pub open spec fn path_vars_upto(ds: Seq<Seq<char>>, rs: Seq<Seq<char>>, i: int) -> Seq<Seq<char>>
    decreases i,
{
    if i <= 0 {
        Seq::empty()
    } else if spec_is_path_variable(ds[i - 1]) {
        path_vars_upto(ds, rs, i - 1).push(rs[i - 1])
    } else {
        path_vars_upto(ds, rs, i - 1)
    }
}

/// The variables extracted by matching `req` against the pattern `def`,
/// both split on `/`.
pub open spec fn path_vars(req: Seq<char>, def: Seq<char>) -> Seq<Seq<char>> {
    path_vars_upto(split_seq(def, '/'), split_seq(req, '/'), split_seq(def, '/').len() as int)
}

/// The variable values matched out of one request path, handed out in
/// pattern order.
pub struct PathVariable {
    vars: Vec<String>,
    pos: usize,
}

impl PathVariable {
    /// The values not yet handed out.
    pub closed spec fn remaining(&self) -> Seq<Seq<char>> {
        self.vars@.map_values(|t: String| t@).skip(self.pos as int)
    }

    /// The cursor never passes the end of the stored values.
    pub closed spec fn wf(&self) -> bool {
        self.pos <= self.vars@.len()
    }

    /// Matches `request_path` against `defined_path`. Every variable
    /// position of the pattern must exist in the request path; a shorter
    /// request path is a caller error, checked by callers that cannot
    /// rule it out.
    #[verifier::loop_isolation(false)]
    pub fn new(request_path: &str, defined_path: &str) -> (r: Self)
        requires
            forall|i: int|
                0 <= i < split_seq(defined_path@, '/').len() && spec_is_path_variable(
                    #[trigger] split_seq(defined_path@, '/')[i],
                ) ==> i < split_seq(request_path@, '/').len(),
        ensures
            r.wf(),
            r.remaining() =~= path_vars(request_path@, defined_path@),
    {
        let defined = split_str(defined_path, '/');
        let requested = split_str(request_path, '/');
        let ghost ds = defined@.map_values(|t: String| t@);
        let ghost rs = requested@.map_values(|t: String| t@);
        let mut vars: Vec<String> = Vec::new();
        let mut i: usize = 0;
        let n = defined.len();
        while i < n
            invariant
                n == defined@.len(),
                ds == defined@.map_values(|t: String| t@),
                rs == requested@.map_values(|t: String| t@),
                0 <= i <= n,
                vars@.map_values(|t: String| t@) =~= path_vars_upto(ds, rs, i as int),
            decreases n - i,
        {
            if is_path_variable(defined[i].as_str()) {
                proof {
                    assert(spec_is_path_variable(ds[i as int]));
                }
                vars.push(requested[i].clone());
            }
            i = i + 1;
        }
        proof {
            assert(vars@.map_values(|t: String| t@).skip(0) =~= vars@.map_values(
                |t: String| t@,
            ));
        }
        PathVariable { vars, pos: 0 }
    }

    /// Hands out the next variable value, in pattern order.
    pub fn next_variable(&mut self) -> (r: Option<String>)
        requires
            old(self).wf(),
        ensures
            final(self).wf(),
            (r is Some) == (old(self).remaining().len() > 0),
            r is Some ==> r->0@ == old(self).remaining()[0] && final(self).remaining() =~= old(
                self,
            ).remaining().drop_first(),
            r is None ==> final(self).remaining() =~= old(self).remaining(),
    {
        if self.pos < self.vars.len() {
            let v = self.vars[self.pos].clone();
            self.pos = self.pos + 1;
            proof {
                let all = old(self).vars@.map_values(|t: String| t@);
                let p = old(self).pos as int;
                assert(v@ == all[p]);
                assert(old(self).remaining() == all.skip(p));
                assert(all.skip(p)[0] == all[p]);
                assert(self.remaining() == all.skip(p + 1));
                assert(all.skip(p + 1) =~= all.skip(p).drop_first());
            }
            Some(v)
        } else {
            None
        }
    }
}

} // verus!
