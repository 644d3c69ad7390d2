//! Expansion of path arguments before they are checked on disk: a leading `~` and `$NAME`
//! variables only. Wildcards and command substitutions are never expanded here.
use vstd::prelude::*;
use crate::text::{char_is_alphanumeric, chars_of, is_alphanumeric, string_from_chars};

verus! {

/// The value of the first variable called `name`, if any.
pub open spec fn var_lookup(vars: Seq<(Seq<char>, Seq<char>)>, name: Seq<char>) -> Option<Seq<char>>
    decreases vars.len(),
{
    if vars.len() == 0 {
        None
    } else if vars[0].0 == name {
        Some(vars[0].1)
    } else {
        var_lookup(vars.drop_first(), name)
    }
}

/// Whether a character may appear in a variable name.
pub open spec fn is_name_char(c: char) -> bool {
    c == '_' || char_is_alphanumeric(c)
}

/// The end of the variable name that starts at `i`.
pub open spec fn name_end(s: Seq<char>, i: int) -> int
    decreases s.len() - i,
{
    if 0 <= i < s.len() && is_name_char(s[i]) { name_end(s, i + 1) } else { i }
}

/// The text from `i` on with each `$NAME` replaced by the variable's value; None when a
/// variable is not set.
pub open spec fn expand_vars(s: Seq<char>, i: int, vars: Seq<(Seq<char>, Seq<char>)>) -> Option<Seq<char>>
    decreases s.len() - i,
{
    if i < 0 || i >= s.len() {
        Some(Seq::empty())
    } else if s[i] == '$' {
        let e = name_end(s, i + 1);
        match var_lookup(vars, s.subrange(i + 1, e)) {
            None => None,
            Some(v) => if e <= i || e > s.len() { None } else {
                match expand_vars(s, e, vars) {
                    None => None,
                    Some(rest) => Some(v + rest),
                }
            },
        }
    } else {
        match expand_vars(s, i + 1, vars) {
            None => None,
            Some(rest) => Some(seq![s[i]] + rest),
        }
    }
}

/// The variable `HOME`.
pub open spec fn home_name() -> Seq<char> {
    seq!['H', 'O', 'M', 'E']
}

/// A path with a leading `~` (alone or before `/`) replaced by `HOME`; None when `HOME` is
/// not set.
pub open spec fn tilde_expanded(p: Seq<char>, vars: Seq<(Seq<char>, Seq<char>)>) -> Option<Seq<char>> {
    if p.len() > 0 && p[0] == '~' && (p.len() == 1 || p[1] == '/') {
        match var_lookup(vars, home_name()) {
            None => None,
            Some(h) => Some(h + p.drop_first()),
        }
    } else {
        Some(p)
    }
}

/// The expansion of a path argument: `~` first, then variables. A path that holds `(`
/// (a command substitution) does not expand.
pub open spec fn expanded_path(p: Seq<char>, vars: Seq<(Seq<char>, Seq<char>)>) -> Option<Seq<char>> {
    match tilde_expanded(p, vars) {
        None => None,
        Some(t) => if t.contains('(') { None } else { expand_vars(t, 0, vars) },
    }
}

/// The views of a list of variables.
pub open spec fn var_views(vars: Seq<(String, String)>) -> Seq<(Seq<char>, Seq<char>)> {
    vars.map_values(|v: (String, String)| (v.0@, v.1@))
}

fn lookup(vars: &Vec<(String, String)>, name: &Vec<char>) -> (r: Option<Vec<char>>)
    ensures
        r matches Some(v) ==> var_lookup(var_views(vars@), name@) == Some(v@),
        r is None ==> var_lookup(var_views(vars@), name@) is None,
{
    let ghost vs = var_views(vars@);
    let mut k: usize = 0;
    proof {
        assert(vs.subrange(0, vs.len() as int) =~= vs);
    }
    while k < vars.len()
        invariant
            k <= vars@.len(),
            vs == var_views(vars@),
            var_lookup(vs, name@) == var_lookup(vs.subrange(k as int, vs.len() as int), name@),
        decreases vars@.len() - k,
    {
        let ghost rest = vs.subrange(k as int, vs.len() as int);
        proof {
            assert(rest.drop_first() =~= vs.subrange(k + 1, vs.len() as int));
            assert(rest[0] == (vars@[k as int].0@, vars@[k as int].1@));
        }
        let key = chars_of(vars[k].0.as_str());
        if crate::textmatch::starts_with(&key, name) && key.len() == name.len() {
            proof {
                assert(key@.subrange(0, name@.len() as int) =~= key@);
            }
            return Some(chars_of(vars[k].1.as_str()));
        }
        proof {
            if key@ == name@ {
                assert(key@.subrange(0, name@.len() as int) =~= key@);
            }
        }
        k = k + 1;
    }
    proof {
        assert(vs.subrange(k as int, vs.len() as int) =~= Seq::<(Seq<char>, Seq<char>)>::empty());
    }
    None
}

fn push_all(out: &mut Vec<char>, v: &Vec<char>)
    ensures
        final(out)@ == old(out)@ + v@,
{
    let mut i: usize = 0;
    let ghost start = out@;
    while i < v.len()
        invariant
            i <= v@.len(),
            out@ == start + v@.subrange(0, i as int),
        decreases v@.len() - i,
    {
        out.push(v[i]);
        proof {
            assert(v@.subrange(0, i + 1) =~= v@.subrange(0, i as int).push(v@[i as int]));
        }
        i = i + 1;
    }
    proof {
        assert(v@.subrange(0, v@.len() as int) =~= v@);
    }
}

/// Expand a path argument: a leading `~` and `$NAME` variables, from the given variables
/// (name, value). None when a variable it names is not set, or when it holds `(`.
pub fn expand_path(path: &str, vars: &Vec<(String, String)>) -> (r: Option<String>)
    ensures
        r matches Some(t) ==> expanded_path(path@, var_views(vars@)) == Some(t@),
        r is None ==> expanded_path(path@, var_views(vars@)) is None,
{
    let ghost vs = var_views(vars@);
    let p = chars_of(path);
    let mut s: Vec<char> = Vec::new();
    if p.len() > 0 && p[0] == '~' && (p.len() == 1 || p[1] == '/') {
        let home_key: Vec<char> = vec!['H', 'O', 'M', 'E'];
        proof {
            assert(home_key@ =~= home_name());
        }
        match lookup(vars, &home_key) {
            None => {
                proof {
                    assert(p@ == path@);
                    assert(tilde_expanded(path@, vs) is None);
                }
                return None;
            },
            Some(h) => {
                push_all(&mut s, &h);
                let mut i: usize = 1;
                while i < p.len()
                    invariant
                        1 <= i <= p@.len(),
                        s@ == h@ + p@.subrange(1, i as int),
                    decreases p@.len() - i,
                {
                    s.push(p[i]);
                    proof {
                        assert(p@.subrange(1, i + 1) =~= p@.subrange(1, i as int).push(p@[i as int]));
                    }
                    i = i + 1;
                }
                proof {
                    assert(p@.subrange(1, p@.len() as int) =~= p@.drop_first());
                }
            },
        }
    } else {
        push_all(&mut s, &p);
        proof {
            assert(s@ =~= p@);
        }
    }
    let ghost t = s@;
    proof {
        assert(p@ == path@);
        assert(tilde_expanded(path@, vs) == Some(t));
    }
    let mut k: usize = 0;
    while k < s.len()
        invariant
            k <= s@.len(),
            s@ == t,
            tilde_expanded(path@, vs) == Some(t),
            vs == var_views(vars@),
            forall|q: int| 0 <= q < k ==> s@[q] != '(',
        decreases s@.len() - k,
    {
        if s[k] == '(' {
            proof {
                assert(t.contains('('));
                assert(expanded_path(path@, vs) is None);
            }
            return None;
        }
        k = k + 1;
    }
    proof {
        assert(!t.contains('('));
    }
    let mut out: Vec<char> = Vec::new();
    let mut i: usize = 0;
    proof {
        assert(out@ + Seq::<char>::empty() =~= out@);
    }
    while i < s.len()
        invariant
            i <= s@.len(),
            s@ == t,
            vs == var_views(vars@),
            tilde_expanded(path@, vs) == Some(t),
            !t.contains('('),
            expand_vars(t, 0, vs) == match expand_vars(t, i as int, vs) {
                Some(rest) => Some(out@ + rest),
                None => None,
            },
        decreases s@.len() - i,
    {
        let ghost o = out@;
        if s[i] == '$' {
            let mut e = i + 1;
            while e < s.len() && (s[e] == '_' || is_alphanumeric(s[e]))
                invariant
                    i + 1 <= e <= s@.len(),
                    s@ == t,
                    name_end(t, i + 1) == name_end(t, e as int),
                decreases s@.len() - e,
            {
                e = e + 1;
            }
            let mut name: Vec<char> = Vec::new();
            let mut q = i + 1;
            while q < e
                invariant
                    i + 1 <= q <= e,
                    e <= s@.len(),
                    name@ == s@.subrange(i + 1, q as int),
                decreases e - q,
            {
                name.push(s[q]);
                proof {
                    assert(s@.subrange(i + 1, q + 1) =~= s@.subrange(i + 1, q as int).push(s@[q as int]));
                }
                q = q + 1;
            }
            match lookup(vars, &name) {
                None => {
                    proof {
                        assert(name_end(t, e as int) == e);
                        assert(name@ == t.subrange(i + 1, e as int));
                        assert(expand_vars(t, i as int, vs) is None);
                    }
                    return None;
                },
                Some(v) => {
                    push_all(&mut out, &v);
                    proof {
                        assert(e > i);
                        assert(name_end(t, e as int) == e);
                        assert(name@ == t.subrange(i + 1, e as int));
                        match expand_vars(t, e as int, vs) {
                            Some(rest) => {
                                assert(expand_vars(t, i as int, vs) == Some(v@ + rest));
                                assert(o + (v@ + rest) =~= out@ + rest);
                            },
                            None => {},
                        }
                    }
                    i = e;
                },
            }
        } else {
            out.push(s[i]);
            proof {
                match expand_vars(t, i + 1, vs) {
                    Some(rest) => {
                        assert(o + (seq![t[i as int]] + rest) =~= out@ + rest);
                    },
                    None => {},
                }
            }
            i = i + 1;
        }
    }
    proof {
        assert(out@ + Seq::<char>::empty() =~= out@);
    }
    Some(string_from_chars(out.as_slice()))
}

} // verus!
