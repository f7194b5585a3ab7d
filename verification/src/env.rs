//! Expansion of `${NAME}` references in configuration text, with the variables given as a map
//! (the server reads them from its environment).

use vstd::prelude::*;
use crate::strmap::StrMap;

verus! {

/// The value of a variable (empty when it is not set).
pub open spec fn lookup(vars: Map<Seq<char>, String>, name: Seq<char>) -> Seq<char> {
    if vars.dom().contains(name) {
        vars[name]@
    } else {
        Seq::empty()
    }
}

/// `s` with every `${NAME}` replaced by the value of `NAME`. A `$` not followed by `{` stays
/// as it is; a reference without its closing `}` takes the rest of the text as its name.
pub open spec fn expand_spec(s: Seq<char>, vars: Map<Seq<char>, String>) -> Seq<char>
    decreases s.len(), 1int,
{
    if s.len() == 0 {
        Seq::empty()
    } else if s.len() >= 2 && s[0] == '$' && s[1] == '{' {
        expand_name(s.skip(2), Seq::empty(), vars)
    } else {
        seq![s[0]] + expand_spec(s.skip(1), vars)
    }
}

/// The expansion of the rest `s` of a text, inside a reference whose name so far is `name`.
pub open spec fn expand_name(s: Seq<char>, name: Seq<char>, vars: Map<Seq<char>, String>) -> Seq<char>
    decreases s.len(), 0int,
{
    if s.len() == 0 {
        lookup(vars, name)
    } else if s[0] == '}' {
        lookup(vars, name) + expand_spec(s.skip(1), vars)
    } else {
        expand_name(s.skip(1), name.push(s[0]), vars)
    }
}

/// Expands `${NAME}` references in `input` with `vars`.
pub fn expand_env(input: &str, vars: &StrMap<String>) -> (out: String)
    ensures
        out@ == expand_spec(input@, vars@),
{
    let n = input.unicode_len();
    let mut out = String::new();
    let mut name = String::new();
    let mut in_name = false;
    assert(out@ =~= Seq::<char>::empty());
    assert(name@ =~= Seq::<char>::empty());
    assert(input@.skip(0) =~= input@);
    let mut i: usize = 0;
    while i < n
        invariant
            n == input@.len(),
            i <= n,
            out@ + if in_name {
                expand_name(input@.skip(i as int), name@, vars@)
            } else {
                expand_spec(input@.skip(i as int), vars@)
            } == expand_spec(input@, vars@),
            !in_name ==> name@ == Seq::<char>::empty(),
        decreases n - i,
    {
        let c = input.get_char(i);
        let ghost rest = input@.skip(i as int);
        assert(rest[0] == c);
        assert(rest.skip(1) =~= input@.skip(i as int + 1));
        if in_name {
            if c == '}' {
                let value = match vars.get(name.as_str()) {
                    Some(v) => v.as_str(),
                    None => "",
                };
                proof {
                    reveal_strlit("");
                }
                let ghost before = out@;
                out.append(value);
                assert(out@ == before + lookup(vars@, name@));
                assert(out@ + expand_spec(rest.skip(1), vars@) =~= before + (lookup(vars@, name@)
                    + expand_spec(rest.skip(1), vars@)));
                name = String::new();
                assert(name@ =~= Seq::<char>::empty());
                in_name = false;
                i = i + 1;
            } else {
                let ghost old_name = name@;
                name.append(input.substring_char(i, i + 1));
                assert(name@ =~= old_name.push(c));
                i = i + 1;
            }
        } else if c == '$' && i + 1 < n && input.get_char(i + 1) == '{' {
            assert(rest[1] == input@[i as int + 1]);
            assert(rest.skip(2) =~= input@.skip(i as int + 2));
            in_name = true;
            i = i + 2;
        } else {
            let ghost before = out@;
            out.append(input.substring_char(i, i + 1));
            assert(out@ =~= before.push(c));
            assert(out@ + expand_spec(rest.skip(1), vars@) =~= before + (seq![c] + expand_spec(rest.skip(1), vars@)));
            i = i + 1;
        }
    }
    if in_name {
        let value = match vars.get(name.as_str()) {
            Some(v) => v.as_str(),
            None => "",
        };
        proof {
            reveal_strlit("");
        }
        let ghost before = out@;
        out.append(value);
        assert(input@.skip(n as int).len() == 0);
    } else {
        assert(input@.skip(n as int).len() == 0);
    }
    assert(out@ =~= expand_spec(input@, vars@));
    out
}

/// Text without `$` expands to itself.
pub proof fn lemma_expand_plain(s: Seq<char>, vars: Map<Seq<char>, String>)
    requires
        !s.contains('$'),
    ensures
        expand_spec(s, vars) == s,
    decreases s.len(),
{
    if s.len() > 0 {
        assert(s[0] != '$');
        assert(!s.skip(1).contains('$')) by {
            if s.skip(1).contains('$') {
                let k = choose|k: int| 0 <= k < s.skip(1).len() && s.skip(1)[k] == '$';
                assert(s[k + 1] == '$');
            }
        }
        lemma_expand_plain(s.skip(1), vars);
        assert(seq![s[0]] + s.skip(1) =~= s);
    }
}

/// Inside a reference, the characters up to the closing `}` make the name.
proof fn lemma_expand_name(name: Seq<char>, acc: Seq<char>, rest: Seq<char>, vars: Map<Seq<char>, String>)
    requires
        !name.contains('}'),
    ensures
        expand_name(name + seq!['}'] + rest, acc, vars) == lookup(vars, acc + name) + expand_spec(rest, vars),
    decreases name.len(),
{
    let s = name + seq!['}'] + rest;
    if name.len() == 0 {
        assert(s[0] == '}');
        assert(s.skip(1) =~= rest);
        assert(acc + name =~= acc);
    } else {
        assert(s[0] == name[0]);
        assert(name[0] != '}');
        let tail = name.skip(1);
        assert(!tail.contains('}')) by {
            if tail.contains('}') {
                let k = choose|k: int| 0 <= k < tail.len() && tail[k] == '}';
                assert(name[k + 1] == '}');
            }
        }
        assert(s.skip(1) =~= tail + seq!['}'] + rest);
        lemma_expand_name(tail, acc.push(name[0]), rest, vars);
        assert(acc.push(name[0]) + tail =~= acc + name);
    }
}

/// A reference `${NAME}` expands to the value of `NAME` (nothing when it is unset), and the
/// text after it expands on its own.
pub proof fn lemma_expand_reference(name: Seq<char>, rest: Seq<char>, vars: Map<Seq<char>, String>)
    requires
        !name.contains('}'),
    ensures
        expand_spec(seq!['$', '{'] + name + seq!['}'] + rest, vars) == lookup(vars, name) + expand_spec(rest, vars),
{
    let s = seq!['$', '{'] + name + seq!['}'] + rest;
    assert(s.skip(2) =~= name + seq!['}'] + rest);
    lemma_expand_name(name, Seq::empty(), rest, vars);
    assert(Seq::<char>::empty() + name =~= name);
}

} // verus!
