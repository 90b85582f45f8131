//! Environment variables: a snapshot of the process environment, `%VAR%` expansion
//! and path templates.

use vstd::prelude::*;
use crate::text::{
    append_str, ascii_upper, ascii_upper_char, ascii_upper_seq, chars_of, find_char_from, index_of,
    lemma_index_of, string_of, string_of_range, strip, strip_bounds, trim, trim_bounds,
};

verus! {

/// A snapshot of environment variables as (name, value) pairs, in the order in which
/// the operating system lists them.
pub struct EnvVars {
    pub vars: Vec<(String, String)>,
}

/// The names and values of a snapshot, as character sequences.
pub open spec fn env_view(vars: Seq<(String, String)>) -> Seq<(Seq<char>, Seq<char>)> {
    vars.map_values(|p: (String, String)| (p.0@, p.1@))
}

impl View for EnvVars {
    type V = Seq<(Seq<char>, Seq<char>)>;

    open spec fn view(&self) -> Seq<(Seq<char>, Seq<char>)> {
        env_view(self.vars@)
    }
}

/// Whether `name` can name a variable at all: non-empty, without `=` and NUL.
pub open spec fn valid_var_name(name: Seq<char>) -> bool {
    name.len() > 0 && !name.contains('=') && !name.contains('\0')
}

/// Names are compared without regard to ASCII case, as Windows does.
pub open spec fn same_var_name(a: Seq<char>, b: Seq<char>) -> bool {
    ascii_upper_seq(a) == ascii_upper_seq(b)
}

/// Value of the first entry of `env`, from position `from` on, whose name matches.
pub open spec fn lookup_from(env: Seq<(Seq<char>, Seq<char>)>, name: Seq<char>, from: int) -> Option<
    Seq<char>,
>
    decreases env.len() - from,
{
    if from < 0 || from >= env.len() {
        None
    } else if same_var_name(env[from].0, name) {
        Some(env[from].1)
    } else {
        lookup_from(env, name, from + 1)
    }
}

/// The value of variable `name` in `env` (what `std::env::var` returns on Windows).
pub open spec fn env_lookup(env: Seq<(Seq<char>, Seq<char>)>, name: Seq<char>) -> Option<Seq<char>> {
    if valid_var_name(name) {
        lookup_from(env, name, 0)
    } else {
        None
    }
}

/// Expansion of `%VAR%` references in `r`: a reference to a set variable is replaced
/// by its value; a `%` that opens no such reference stays as it is. Inserted values
/// are not expanded again.
pub open spec fn expand_refs(r: Seq<char>, env: Seq<(Seq<char>, Seq<char>)>) -> Seq<char>
    decreases r.len(),
{
    let s: int = index_of(r, '%');
    if s < 0 {
        r
    } else {
        proof {
            lemma_index_of(r, '%');
        }
        let after = r.subrange(s + 1, r.len() as int);
        let e: int = index_of(after, '%');
        if e >= 0 && env_lookup(env, after.subrange(0, e)) is Some {
            proof {
                lemma_index_of(after, '%');
            }
            r.subrange(0, s) + env_lookup(env, after.subrange(0, e))->0 + expand_refs(
                after.subrange(e + 1, after.len() as int),
                env,
            )
        } else {
            r.subrange(0, s + 1) + expand_refs(after, env)
        }
    }
}

/// `expand_env`: white space and then double quotes are trimmed from both ends, then
/// `%VAR%` references are expanded.
pub open spec fn expand_env_spec(path: Seq<char>, env: Seq<(Seq<char>, Seq<char>)>) -> Seq<char> {
    expand_refs(strip(trim(path), '"'), env)
}

/// A path template: one that starts with `%` names a variable up to the next `%` and
/// resolves to its value followed by the rest; any other template is a literal path.
/// `None` when the closing `%` is missing or the variable is not set.
pub open spec fn resolve_template_spec(t: Seq<char>, env: Seq<(Seq<char>, Seq<char>)>) -> Option<
    Seq<char>,
> {
    if t.len() > 0 && t[0] == '%' {
        let tail = t.subrange(1, t.len() as int);
        let close: int = index_of(tail, '%');
        if close < 0 {
            None
        } else {
            match env_lookup(env, tail.subrange(0, close)) {
                Some(v) => Some(v + tail.subrange(close + 1, tail.len() as int)),
                None => None,
            }
        }
    } else {
        Some(t)
    }
}

/// Whether two names are equal without regard to ASCII case.
fn same_name_exec(a: &[char], b: &[char]) -> (r: bool)
    ensures
        r == same_var_name(a@, b@),
{
    if a.len() != b.len() {
        proof {
            assert(ascii_upper_seq(a@).len() != ascii_upper_seq(b@).len());
        }
        return false;
    }
    let mut i: usize = 0;
    while i < a.len()
        invariant
            a@.len() == b@.len(),
            i <= a@.len(),
            forall|j: int| 0 <= j < i ==> ascii_upper(a@[j]) == ascii_upper(b@[j]),
        decreases a@.len() - i,
    {
        if ascii_upper_char(a[i]) != ascii_upper_char(b[i]) {
            proof {
                assert(ascii_upper_seq(a@)[i as int] != ascii_upper_seq(b@)[i as int]);
            }
            return false;
        }
        i += 1;
    }
    proof {
        assert(ascii_upper_seq(a@) =~= ascii_upper_seq(b@));
    }
    true
}

/// Whether `c` occurs in `v`.
fn has_char(v: &[char], c: char) -> (r: bool)
    ensures
        r == v@.contains(c),
{
    let mut i: usize = 0;
    while i < v.len()
        invariant
            i <= v@.len(),
            forall|j: int| 0 <= j < i ==> v@[j] != c,
        decreases v@.len() - i,
    {
        if v[i] == c {
            return true;
        }
        i += 1;
    }
    false
}

impl EnvVars {
    /// The value of variable `name` (compared without regard to ASCII case); `None` when
    /// it is not set or `name` cannot name a variable.
    pub fn lookup(&self, name: &[char]) -> (r: Option<String>)
        ensures
            match r {
                Some(v) => env_lookup(self@, name@) == Some(v@),
                None => env_lookup(self@, name@) is None,
            },
    {
        if name.len() == 0 || has_char(name, '=') || has_char(name, '\0') {
            return None;
        }
        let mut i: usize = 0;
        while i < self.vars.len()
            invariant
                i <= self.vars@.len(),
                valid_var_name(name@),
                lookup_from(self@, name@, 0) == lookup_from(self@, name@, i as int),
            decreases self.vars@.len() - i,
        {
            let n = chars_of(self.vars[i].0.as_str());
            if same_name_exec(n.as_slice(), name) {
                return Some(self.vars[i].1.clone());
            }
            i += 1;
        }
        None
    }
}

/// Appends `v[lo..hi]` to `out`.
fn extend_range(out: &mut Vec<char>, v: &[char], lo: usize, hi: usize)
    requires
        lo <= hi <= v@.len(),
    ensures
        final(out)@ == old(out)@ + v@.subrange(lo as int, hi as int),
{
    let mut i: usize = lo;
    while i < hi
        invariant
            lo <= i <= hi <= v@.len(),
            out@ == old(out)@ + v@.subrange(lo as int, i as int),
        decreases hi - i,
    {
        out.push(v[i]);
        i += 1;
        proof {
            assert(v@.subrange(lo as int, i as int) =~= v@.subrange(lo as int, i - 1).push(
                v@[i - 1],
            ));
        }
    }
}

/// Expands `%VAR%` references in `v`.
#[verifier::rlimit(50)]
fn expand_refs_exec(v: &[char], env: &EnvVars) -> (r: Vec<char>)
    ensures
        r@ == expand_refs(v@, env@),
{
    let mut out: Vec<char> = Vec::new();
    let mut pos: usize = 0;
    proof {
        assert(v@.skip(0) =~= v@);
    }
    loop
        invariant
            pos <= v@.len(),
            out@ + expand_refs(v@.skip(pos as int), env@) == expand_refs(v@, env@),
        decreases v@.len() - pos,
    {
        let ghost r = v@.skip(pos as int);
        assert(r == v@.subrange(pos as int, v@.len() as int));
        match find_char_from(v, '%', pos) {
            None => {
                extend_range(&mut out, v, pos, v.len());
                return out;
            },
            Some(s) => {
                let ghost after = r.subrange(s - pos + 1, r.len() as int);
                assert(after =~= v@.subrange(s + 1, v@.len() as int));
                assert(s < v.len());
                let close = find_char_from(v, '%', s + 1);
                let mut replaced = false;
                if let Some(e) = close {
                    assert(e < v.len());
                    let name = &v[s + 1..e];
                    assert(name@ =~= after.subrange(0, e - s - 1));
                    if let Some(val) = env.lookup(name) {
                        extend_range(&mut out, v, pos, s);
                        let vc = chars_of(val.as_str());
                        let ghost before = out@;
                        extend_range(&mut out, vc.as_slice(), 0, vc.len());
                        proof {
                            assert(vc@.subrange(0, vc@.len() as int) =~= vc@);
                            assert(r.subrange(0, s - pos) =~= v@.subrange(pos as int, s as int));
                            assert(after.subrange(e - s, after.len() as int) =~= v@.skip(e + 1));
                        }
                        pos = e + 1;
                        replaced = true;
                    }
                }
                if !replaced {
                    extend_range(&mut out, v, pos, s + 1);
                    proof {
                        assert(r.subrange(0, s - pos + 1) =~= v@.subrange(pos as int, s + 1));
                        assert(after =~= v@.skip(s + 1));
                    }
                    pos = s + 1;
                }
            },
        }
    }
}

/// `expand_env`: trims white space and then double quotes from both ends of `path`,
/// and replaces each `%VAR%` whose variable is set in `env` with its value.
pub fn expand_env(path: &str, env: &EnvVars) -> (r: String)
    ensures
        r@ == expand_env_spec(path@, env@),
{
    let v = chars_of(path);
    let (lo, hi) = trim_bounds(v.as_slice());
    let t = &v[lo..hi];
    let (a, b) = strip_bounds(t, '"');
    let u = &t[a..b];
    let out = expand_refs_exec(u, env);
    string_of(out.as_slice())
}

/// `resolve_template`: expands a template that starts with `%VAR%` to the variable's
/// value followed by the rest of the template; any other template is returned as it
/// is. `None` when the closing `%` is missing or the variable is not set.
pub fn resolve_template(t: &str, env: &EnvVars) -> (r: Option<String>)
    ensures
        match r {
            Some(s) => resolve_template_spec(t@, env@) == Some(s@),
            None => resolve_template_spec(t@, env@) is None,
        },
{
    let v = chars_of(t);
    if v.len() > 0 && v[0] == '%' {
        let ghost tail = v@.subrange(1, v@.len() as int);
        match find_char_from(v.as_slice(), '%', 1) {
            None => None,
            Some(close) => {
                let name = &v[1..close];
                assert(name@ =~= tail.subrange(0, close - 1));
                match env.lookup(name) {
                    None => None,
                    Some(val) => {
                        let mut out = val;
                        let rest = string_of_range(v.as_slice(), close + 1, v.len());
                        append_str(&mut out, rest.as_str());
                        assert(tail.subrange(close as int, tail.len() as int) =~= v@.subrange(
                            close + 1,
                            v@.len() as int,
                        ));
                        Some(out)
                    },
                }
            },
        }
    } else {
        Some(string_of(v.as_slice()))
    }
}

} // verus!
