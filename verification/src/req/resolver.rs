//! Variable resolution: environment groups, defaults and inline variables
//! substituted into `{{NAME}}` templates.

use vstd::prelude::*;

use super::model::{
    headers_view, vars_view, Header, ParsedRequest, ParsedRequestModel, Request, RequestBody,
    RequestModel, Variable,
};
use crate::text::{
    find_pair, from_chars, index_of_pair, lemma_first_pair_at_join, lemma_index_of_pair_bound, push_chars, range_eq_str,
    to_chars, trim, trim_bounds,
};
use vstd::string::StringExecFns;

verus! {

/// Error returned when a request cannot be resolved.
#[derive(Debug, Clone, PartialEq, Eq)]
pub struct ResolveError {
    pub message: String,
}

/// Variables available to a request: defaults and named environment groups.
///
/// A context read from JSON objects holds each name once within `defaults`,
/// within `envs` and within each group; lookups take the first entry with a
/// name, which is then the only one (see [`lemma_lookup_distinct`]).
#[derive(Debug, Clone, PartialEq, Eq)]
pub struct ResolveContext {
    pub defaults: Vec<(String, String)>,
    pub envs: Vec<(String, Vec<(String, String)>)>,
}

impl Default for ResolveContext {
    fn default() -> (c: Self)
        ensures
            c@ == empty_context(),
    {
        let c = ResolveContext { defaults: Vec::new(), envs: Vec::new() };
        assert(c@.defaults =~= Seq::<(Seq<char>, Seq<char>)>::empty());
        assert(c@.envs =~= Seq::<(Seq<char>, Seq<(Seq<char>, Seq<char>)>)>::empty());
        assert(c@ == empty_context());
        c
    }
}

/// A name and its value.
pub type Binding = (Seq<char>, Seq<char>);

/// Value of a [`ResolveContext`].
pub struct ContextModel {
    pub defaults: Seq<Binding>,
    pub envs: Seq<(Seq<char>, Seq<Binding>)>,
}

pub open spec fn pairs_view(v: Seq<(String, String)>) -> Seq<Binding> {
    v.map_values(|p: (String, String)| (p.0@, p.1@))
}

pub open spec fn envs_view(v: Seq<(String, Vec<(String, String)>)>) -> Seq<(Seq<char>, Seq<Binding>)> {
    v.map_values(|e: (String, Vec<(String, String)>)| (e.0@, pairs_view(e.1@)))
}

impl View for ResolveContext {
    type V = ContextModel;

    open spec fn view(&self) -> ContextModel {
        ContextModel { defaults: pairs_view(self.defaults@), envs: envs_view(self.envs@) }
    }
}

/// No two bindings share a name.
pub open spec fn names_distinct(s: Seq<Binding>) -> bool {
    forall|i: int, j: int| 0 <= i < j < s.len() ==> #[trigger] s[i].0 != #[trigger] s[j].0
}

/// The value bound to `k` by the first binding of that name.
pub open spec fn lookup(s: Seq<Binding>, k: Seq<char>) -> Option<Seq<char>>
    decreases s.len(),
{
    if s.len() == 0 {
        None
    } else if s[0].0 == k {
        Some(s[0].1)
    } else {
        lookup(s.drop_first(), k)
    }
}

/// The group named `name`.
pub open spec fn env_lookup(envs: Seq<(Seq<char>, Seq<Binding>)>, name: Seq<char>) -> Option<Seq<Binding>>
    decreases envs.len(),
{
    if envs.len() == 0 {
        None
    } else if envs[0].0 == name {
        Some(envs[0].1)
    } else {
        env_lookup(envs.drop_first(), name)
    }
}

/// A variable taken from a group: name, value, group.
pub type Sourced = (Seq<char>, Seq<char>, Seq<char>);

/// The group that already defines `name`.
pub open spec fn source_of(vals: Seq<Sourced>, name: Seq<char>) -> Option<Seq<char>>
    decreases vals.len(),
{
    if vals.len() == 0 {
        None
    } else if vals[0].0 == name {
        Some(vals[0].2)
    } else {
        source_of(vals.drop_first(), name)
    }
}

pub open spec fn collision_message(name: Seq<char>, previous: Seq<char>, current: Seq<char>) -> Seq<char> {
    "Variable "@ + name + " is defined by multiple selected environments: "@ + previous + ", "@ + current
}

/// Adds the variables of group `env_name`, refusing one that an earlier
/// group already defines.
pub open spec fn add_env_vars(vals: Seq<Sourced>, env_name: Seq<char>, env: Seq<Binding>) -> Result<Seq<Sourced>, Seq<char>>
    decreases env.len(),
{
    if env.len() == 0 {
        Ok(vals)
    } else {
        match add_env_vars(vals, env_name, env.drop_last()) {
            Err(e) => Err(e),
            Ok(v) => match source_of(v, env.last().0) {
                Some(prev) => Err(collision_message(env.last().0, prev, env_name)),
                None => Ok(v.push((env.last().0, env.last().1, env_name))),
            },
        }
    }
}

/// The variables of the selected groups, each group taken once, in order of
/// first selection.
pub open spec fn collect_env_vars(selected: Seq<Seq<char>>, envs: Seq<(Seq<char>, Seq<Binding>)>) -> Result<Seq<Sourced>, Seq<char>>
    decreases selected.len(),
{
    if selected.len() == 0 {
        Ok(seq![])
    } else {
        match collect_env_vars(selected.drop_last(), envs) {
            Err(e) => Err(e),
            Ok(v) => if selected.drop_last().contains(selected.last()) {
                Ok(v)
            } else {
                match env_lookup(envs, selected.last()) {
                    None => Err("Missing environment: "@ + selected.last()),
                    Some(env) => add_env_vars(v, selected.last(), env),
                }
            },
        }
    }
}

/// The first name that occurs a second time.
pub open spec fn first_duplicate(names: Seq<Seq<char>>) -> Option<Seq<char>>
    decreases names.len(),
{
    if names.len() == 0 {
        None
    } else {
        match first_duplicate(names.drop_last()) {
            Some(d) => Some(d),
            None => if names.drop_last().contains(names.last()) {
                Some(names.last())
            } else {
                None
            },
        }
    }
}

pub open spec fn binding_names(s: Seq<Binding>) -> Seq<Seq<char>> {
    s.map_values(|b: Binding| b.0)
}

pub open spec fn sourced_bindings(s: Seq<Sourced>) -> Seq<Binding> {
    s.map_values(|t: Sourced| (t.0, t.1))
}

/// The bindings a request sees, in order of precedence: inline variables,
/// then variables of the selected groups, then defaults.
pub open spec fn spec_resolve_vars(p: ParsedRequestModel, c: ContextModel) -> Result<Seq<Binding>, Seq<char>> {
    match collect_env_vars(p.envs, c.envs) {
        Err(e) => Err(e),
        Ok(ev) => match first_duplicate(binding_names(p.vars)) {
            Some(d) => Err("Duplicated variable: "@ + d),
            None => Ok(p.vars + sourced_bindings(ev) + c.defaults),
        },
    }
}

/// `{{ NAME }}` expressions of `s` replaced by the values `scope` binds;
/// errors for an unclosed or empty expression and an unbound name.
pub open spec fn spec_resolve_template(s: Seq<char>, scope: Seq<Binding>) -> Result<Seq<char>, Seq<char>>
    decreases s.len(),
{
    match index_of_pair(s, '{', '{') {
        None => Ok(s),
        Some(i) => {
            let after = s.skip(i + 2int);
            match index_of_pair(after, '}', '}') {
                None => Err("Unclosed variable expression"@),
                Some(j) => {
                    let name = trim(after.take(j as int));
                    if name.len() == 0 {
                        Err("Empty variable expression"@)
                    } else {
                        match lookup(scope, name) {
                            None => Err("Missing variable: "@ + name),
                            Some(v) => {
                                proof {
                                    lemma_index_of_pair_bound(s, '{', '{');
                                    lemma_index_of_pair_bound(after, '}', '}');
                                }
                                match spec_resolve_template(after.skip(j + 2int), scope) {
                                    Err(e) => Err(e),
                                    Ok(rest) => Ok(s.take(i as int) + v + rest),
                                }
                            },
                        }
                    }
                },
            }
        },
    }
}

/// The names used by the `{{ NAME }}` expressions of `s`, in order.
pub open spec fn spec_template_names(s: Seq<char>) -> Result<Seq<Seq<char>>, Seq<char>>
    decreases s.len(),
{
    match index_of_pair(s, '{', '{') {
        None => Ok(seq![]),
        Some(i) => {
            let after = s.skip(i + 2int);
            match index_of_pair(after, '}', '}') {
                None => Err("Unclosed variable expression"@),
                Some(j) => {
                    let name = trim(after.take(j as int));
                    if name.len() == 0 {
                        Err("Empty variable expression"@)
                    } else {
                        proof {
                            lemma_index_of_pair_bound(s, '{', '{');
                            lemma_index_of_pair_bound(after, '}', '}');
                        }
                        match spec_template_names(after.skip(j + 2int)) {
                            Err(e) => Err(e),
                            Ok(rest) => Ok(seq![name] + rest),
                        }
                    }
                },
            }
        },
    }
}

/// Header values resolved in order; names are kept.
pub open spec fn resolve_headers(hs: Seq<Binding>, scope: Seq<Binding>) -> Result<Seq<Binding>, Seq<char>>
    decreases hs.len(),
{
    if hs.len() == 0 {
        Ok(seq![])
    } else {
        match resolve_headers(hs.drop_last(), scope) {
            Err(e) => Err(e),
            Ok(done) => match spec_resolve_template(hs.last().1, scope) {
                Err(e) => Err(e),
                Ok(v) => Ok(done.push((hs.last().0, v))),
            },
        }
    }
}

/// The template names of header values, in order.
pub open spec fn header_template_names(hs: Seq<Binding>) -> Result<Seq<Seq<char>>, Seq<char>>
    decreases hs.len(),
{
    if hs.len() == 0 {
        Ok(seq![])
    } else {
        match header_template_names(hs.drop_last()) {
            Err(e) => Err(e),
            Ok(done) => match spec_template_names(hs.last().1) {
                Err(e) => Err(e),
                Ok(ns) => Ok(done + ns),
            },
        }
    }
}

/// The request with URL, header values and body resolved, in that order.
pub open spec fn spec_resolve_request(p: ParsedRequestModel, c: ContextModel) -> Result<RequestModel, Seq<char>> {
    match spec_resolve_vars(p, c) {
        Err(e) => Err(e),
        Ok(scope) => match spec_resolve_template(p.request.url, scope) {
            Err(e) => Err(e),
            Ok(url) => match resolve_headers(p.request.headers, scope) {
                Err(e) => Err(e),
                Ok(headers) => match p.request.body {
                    None => Ok(RequestModel { url, headers, ..p.request }),
                    Some(b) => match spec_resolve_template(b, scope) {
                        Err(e) => Err(e),
                        Ok(body) => Ok(RequestModel { url, headers, body: Some(body), ..p.request }),
                    },
                },
            },
        },
    }
}

/// The template names of URL, header values and body.
pub open spec fn request_template_names(r: RequestModel) -> Result<Seq<Seq<char>>, Seq<char>> {
    match spec_template_names(r.url) {
        Err(e) => Err(e),
        Ok(a) => match header_template_names(r.headers) {
            Err(e) => Err(e),
            Ok(b) => match r.body {
                None => Ok(a + b),
                Some(body) => match spec_template_names(body) {
                    Err(e) => Err(e),
                    Ok(c) => Ok(a + b + c),
                },
            },
        },
    }
}

/// A request needs a context when it selects a group or uses a name that no
/// inline variable defines.
pub open spec fn spec_needs_context(p: ParsedRequestModel) -> Result<bool, Seq<char>> {
    if p.envs.len() > 0 {
        Ok(true)
    } else {
        match request_template_names(p.request) {
            Err(e) => Err(e),
            Ok(names) => Ok(
                exists|i: int| 0 <= i < names.len() && !binding_names(p.vars).contains(#[trigger] names[i]),
            ),
        }
    }
}

pub open spec fn sourced_view(v: Seq<(String, String, String)>) -> Seq<Sourced> {
    v.map_values(|t: (String, String, String)| (t.0@, t.1@, t.2@))
}

fn resolve_error(message: String) -> (e: ResolveError)
    ensures
        e.message@ == message@,
{
    ResolveError { message }
}

/// Index of the first binding of `scope` named `v[a..b]`.
fn find_binding(scope: &Vec<(String, String)>, v: &Vec<char>, a: usize, b: usize) -> (r: Option<usize>)
    requires
        a <= b <= v.len(),
    ensures
        match r {
            Some(i) => i < scope@.len() && lookup(pairs_view(scope@), v@.subrange(a as int, b as int))
                == Some(scope@[i as int].1@),
            None => lookup(pairs_view(scope@), v@.subrange(a as int, b as int)) is None,
        },
{
    let ghost name = v@.subrange(a as int, b as int);
    let ghost all = pairs_view(scope@);
    let mut i: usize = 0;
    assert(all.skip(0) =~= all);
    while i < scope.len()
        invariant
            i <= scope@.len(),
            a <= b <= v.len(),
            name == v@.subrange(a as int, b as int),
            all == pairs_view(scope@),
            lookup(all, name) == lookup(all.skip(i as int), name),
        decreases scope@.len() - i,
    {
        assert(all.skip(i as int)[0] == (scope@[i as int].0@, scope@[i as int].1@));
        if range_eq_str(v, a, b, scope[i].0.as_str()) {
            return Some(i);
        }
        assert(all.skip(i as int).drop_first() =~= all.skip(i + 1));
        i = i + 1;
    }
    assert(all.skip(i as int) =~= Seq::<Binding>::empty());
    None
}

/// Resolves the templates of `input` against `scope`.
fn resolve_template(input: &String, scope: &Vec<(String, String)>) -> (r: Result<String, ResolveError>)
    ensures
        match r {
            Ok(s) => spec_resolve_template(input@, pairs_view(scope@)) == Ok::<_, Seq<char>>(s@),
            Err(e) => spec_resolve_template(input@, pairs_view(scope@)) == Err::<Seq<char>, _>(e.message@),
        },
{
    let ghost sc = pairs_view(scope@);
    let v = to_chars(input.as_str());
    let n = v.len();
    let mut out = String::new();
    let mut pos: usize = 0;
    assert(v@.subrange(0, n as int) =~= v@);
    assert(out@ + v@ =~= v@);
    loop
        invariant
            pos <= n == v@.len(),
            v@ == input@,
            sc == pairs_view(scope@),
            spec_resolve_template(v@, sc) == match spec_resolve_template(v@.subrange(pos as int, n as int), sc) {
                Ok(rest) => Ok::<_, Seq<char>>(out@ + rest),
                Err(e) => Err(e),
            },
        decreases n - pos,
    {
        let ghost s = v@.subrange(pos as int, n as int);
        let ghost out0 = out@;
        let ghost pos0 = pos;
        match find_pair(&v, pos, n, '{', '{') {
            None => {
                push_chars(&mut out, &v, pos, n);
                return Ok(out);
            },
            Some(start) => {
                let after = start + 2;
                let ghost i = start - pos;
                assert(s.skip(i + 2) =~= v@.subrange(after as int, n as int));
                assert(s.take(i) =~= v@.subrange(pos as int, start as int));
                push_chars(&mut out, &v, pos, start);
                match find_pair(&v, after, n, '}', '}') {
                    None => {
                        return Err(resolve_error("Unclosed variable expression".to_owned()));
                    },
                    Some(end) => {
                        let ghost aft = v@.subrange(after as int, n as int);
                        let ghost j = end - after;
                        assert(aft.take(j) =~= v@.subrange(after as int, end as int));
                        assert(aft.skip(j + 2) =~= v@.subrange(end + 2, n as int));
                        let (a, b) = trim_bounds(&v, after, end);
                        if a == b {
                            return Err(resolve_error("Empty variable expression".to_owned()));
                        }
                        match find_binding(scope, &v, a, b) {
                            None => {
                                let mut message = "Missing variable: ".to_owned();
                                push_chars(&mut message, &v, a, b);
                                return Err(resolve_error(message));
                            },
                            Some(k) => {
                                let ghost out1 = out@;
                                out.append(scope[k].1.as_str());
                                pos = end + 2;
                                proof {
                                    let val = scope@[k as int].1@;
                                    assert(out1 == out0 + s.take(i));
                                    if let Ok(r2) = spec_resolve_template(v@.subrange(pos as int, n as int), sc) {
                                        assert(out0 + (s.take(i) + val + r2) =~= out@ + r2);
                                    }
                                }
                            },
                        }
                    },
                }
            },
        }
    }
}

/// Appends the template names of `input` to `names`.
fn collect_template_vars(input: &String, names: &mut Vec<String>) -> (r: Result<(), ResolveError>)
    ensures
        match r {
            Ok(_) => spec_template_names(input@) matches Ok(ns) && crate::text::string_views(final(names)@)
                == crate::text::string_views(old(names)@) + ns,
            Err(e) => spec_template_names(input@) == Err::<Seq<Seq<char>>, _>(e.message@),
        },
{
    let v = to_chars(input.as_str());
    let n = v.len();
    let mut pos: usize = 0;
    let ghost base = crate::text::string_views(names@);
    let ghost mut found: Seq<Seq<char>> = seq![];
    assert(v@.subrange(0, n as int) =~= v@);
    assert(crate::text::string_views(names@) =~= base + found);
    proof {
        if let Ok(rest) = spec_template_names(v@) {
            assert(found + rest =~= rest);
        }
    }
    loop
        invariant
            pos <= n == v@.len(),
            v@ == input@,
            base == crate::text::string_views(old(names)@),
            crate::text::string_views(names@) == base + found,
            spec_template_names(v@) == match spec_template_names(v@.subrange(pos as int, n as int)) {
                Ok(rest) => Ok::<_, Seq<char>>(found + rest),
                Err(e) => Err(e),
            },
        decreases n - pos,
    {
        let ghost s = v@.subrange(pos as int, n as int);
        let ghost before = crate::text::string_views(names@);
        match find_pair(&v, pos, n, '{', '{') {
            None => {
                assert(found + Seq::<Seq<char>>::empty() =~= found);
                return Ok(());
            },
            Some(start) => {
                let after = start + 2;
                let ghost i = start - pos;
                assert(s.skip(i + 2) =~= v@.subrange(after as int, n as int));
                match find_pair(&v, after, n, '}', '}') {
                    None => {
                        return Err(resolve_error("Unclosed variable expression".to_owned()));
                    },
                    Some(end) => {
                        let ghost aft = v@.subrange(after as int, n as int);
                        let ghost j = end - after;
                        assert(aft.take(j) =~= v@.subrange(after as int, end as int));
                        assert(aft.skip(j + 2) =~= v@.subrange(end + 2, n as int));
                        let (a, b) = trim_bounds(&v, after, end);
                        if a == b {
                            return Err(resolve_error("Empty variable expression".to_owned()));
                        }
                        let name = from_chars(&v, a, b);
                        let ghost nm = name@;
                        names.push(name);
                        let ghost found0 = found;
                        proof {
                            found = found.push(nm);
                        }
                        assert(crate::text::string_views(names@) =~= before.push(nm));
                        assert(before.push(nm) =~= base + found);
                        pos = end + 2;
                        proof {
                            if let Ok(rest) = spec_template_names(v@.subrange(pos as int, n as int)) {
                                assert(found0 + (seq![nm] + rest) =~= found + rest);
                            }
                        }
                    },
                }
            },
        }
    }
}

pub proof fn lemma_add_env_vars_err(vals: Seq<Sourced>, env_name: Seq<char>, env: Seq<Binding>, k: int)
    requires
        0 <= k <= env.len(),
        add_env_vars(vals, env_name, env.take(k)) is Err,
    ensures
        add_env_vars(vals, env_name, env) == add_env_vars(vals, env_name, env.take(k)),
    decreases env.len() - k,
{
    if k < env.len() {
        assert(env.take(k + 1).drop_last() =~= env.take(k));
        lemma_add_env_vars_err(vals, env_name, env, k + 1);
    } else {
        assert(env.take(k) =~= env);
    }
}

pub proof fn lemma_collect_env_vars_err(selected: Seq<Seq<char>>, envs: Seq<(Seq<char>, Seq<Binding>)>, k: int)
    requires
        0 <= k <= selected.len(),
        collect_env_vars(selected.take(k), envs) is Err,
    ensures
        collect_env_vars(selected, envs) == collect_env_vars(selected.take(k), envs),
    decreases selected.len() - k,
{
    if k < selected.len() {
        assert(selected.take(k + 1).drop_last() =~= selected.take(k));
        lemma_collect_env_vars_err(selected, envs, k + 1);
    } else {
        assert(selected.take(k) =~= selected);
    }
}

pub proof fn lemma_first_duplicate_some(names: Seq<Seq<char>>, k: int)
    requires
        0 <= k <= names.len(),
        first_duplicate(names.take(k)) is Some,
    ensures
        first_duplicate(names) == first_duplicate(names.take(k)),
    decreases names.len() - k,
{
    if k < names.len() {
        assert(names.take(k + 1).drop_last() =~= names.take(k));
        lemma_first_duplicate_some(names, k + 1);
    } else {
        assert(names.take(k) =~= names);
    }
}

/// Index of the group named `name`.
fn find_env(envs: &Vec<(String, Vec<(String, String)>)>, name: &String) -> (r: Option<usize>)
    ensures
        match r {
            Some(i) => i < envs@.len() && env_lookup(envs_view(envs@), name@) == Some(pairs_view(envs@[i as int].1@)),
            None => env_lookup(envs_view(envs@), name@) is None,
        },
{
    let ghost all = envs_view(envs@);
    let mut i: usize = 0;
    assert(all.skip(0) =~= all);
    while i < envs.len()
        invariant
            i <= envs@.len(),
            all == envs_view(envs@),
            env_lookup(all, name@) == env_lookup(all.skip(i as int), name@),
        decreases envs@.len() - i,
    {
        assert(all.skip(i as int)[0] == (envs@[i as int].0@, pairs_view(envs@[i as int].1@)));
        if envs[i].0 == *name {
            return Some(i);
        }
        assert(all.skip(i as int).drop_first() =~= all.skip(i + 1));
        i = i + 1;
    }
    assert(all.skip(i as int) =~= Seq::<(Seq<char>, Seq<Binding>)>::empty());
    None
}

/// Index of the first variable named `name` taken from a group.
fn find_source(vals: &Vec<(String, String, String)>, name: &String) -> (r: Option<usize>)
    ensures
        match r {
            Some(i) => i < vals@.len() && source_of(sourced_view(vals@), name@) == Some(vals@[i as int].2@),
            None => source_of(sourced_view(vals@), name@) is None,
        },
{
    let ghost all = sourced_view(vals@);
    let mut i: usize = 0;
    assert(all.skip(0) =~= all);
    while i < vals.len()
        invariant
            i <= vals@.len(),
            all == sourced_view(vals@),
            source_of(all, name@) == source_of(all.skip(i as int), name@),
        decreases vals@.len() - i,
    {
        assert(all.skip(i as int)[0] == (vals@[i as int].0@, vals@[i as int].1@, vals@[i as int].2@));
        if vals[i].0 == *name {
            return Some(i);
        }
        assert(all.skip(i as int).drop_first() =~= all.skip(i + 1));
        i = i + 1;
    }
    assert(all.skip(i as int) =~= Seq::<Sourced>::empty());
    None
}

/// `v[..upto]` holds a string equal to `x`.
fn contains_before(v: &Vec<String>, upto: usize, x: &String) -> (b: bool)
    requires
        upto <= v@.len(),
    ensures
        b == crate::text::string_views(v@).take(upto as int).contains(x@),
{
    let ghost sv = crate::text::string_views(v@);
    let mut i: usize = 0;
    while i < upto
        invariant
            i <= upto <= v@.len(),
            sv == crate::text::string_views(v@),
            forall|j: int| 0 <= j < i ==> sv[j] != x@,
        decreases upto - i,
    {
        if v[i] == *x {
            assert(sv.take(upto as int)[i as int] == x@);
            return true;
        }
        i = i + 1;
    }
    assert forall|j: int| 0 <= j < upto implies sv.take(upto as int)[j] != x@ by {
        assert(sv.take(upto as int)[j] == sv[j]);
    }
    false
}

fn collision_error(name: &String, previous: &String, current: &String) -> (e: ResolveError)
    ensures
        e.message@ == collision_message(name@, previous@, current@),
{
    let mut message = "Variable ".to_owned();
    message.append(name.as_str());
    message.append(" is defined by multiple selected environments: ");
    message.append(previous.as_str());
    message.append(", ");
    message.append(current.as_str());
    resolve_error(message)
}

/// Adds the variables of group `env_name` to `vals`.
fn add_env_vars_exec(vals: &mut Vec<(String, String, String)>, env_name: &String, env: &Vec<(String, String)>) -> (r: Result<(), ResolveError>)
    ensures
        match r {
            Ok(_) => add_env_vars(sourced_view(old(vals)@), env_name@, pairs_view(env@)) == Ok::<_, Seq<char>>(sourced_view(final(vals)@)),
            Err(e) => add_env_vars(sourced_view(old(vals)@), env_name@, pairs_view(env@)) == Err::<Seq<Sourced>, _>(e.message@),
        },
{
    let ghost v0 = sourced_view(vals@);
    let ghost ev = pairs_view(env@);
    let mut j: usize = 0;
    assert(ev.take(0) =~= Seq::<Binding>::empty());
    while j < env.len()
        invariant
            j <= env@.len(),
            v0 == sourced_view(old(vals)@),
            ev == pairs_view(env@),
            add_env_vars(v0, env_name@, ev.take(j as int)) == Ok::<_, Seq<char>>(sourced_view(vals@)),
        decreases env@.len() - j,
    {
        assert(ev.take(j + 1).drop_last() =~= ev.take(j as int));
        assert(ev.take(j + 1).last() == (env@[j as int].0@, env@[j as int].1@));
        let (name, value) = &env[j];
        match find_source(vals, name) {
            Some(k) => {
                let e = collision_error(name, &vals[k].2, env_name);
                proof {
                    lemma_add_env_vars_err(v0, env_name@, ev, j + 1);
                }
                return Err(e);
            },
            None => {
                let ghost before = vals@;
                vals.push((name.clone(), value.clone(), env_name.clone()));
                assert(sourced_view(vals@) =~= sourced_view(before).push((name@, value@, env_name@)));
            },
        }
        j = j + 1;
    }
    assert(ev.take(j as int) =~= ev);
    Ok(())
}

/// The variables of the selected groups.
fn collect_env_vars_exec(selected: &Vec<String>, envs: &Vec<(String, Vec<(String, String)>)>) -> (r: Result<Vec<(String, String, String)>, ResolveError>)
    ensures
        match r {
            Ok(v) => collect_env_vars(crate::text::string_views(selected@), envs_view(envs@)) == Ok::<_, Seq<char>>(sourced_view(v@)),
            Err(e) => collect_env_vars(crate::text::string_views(selected@), envs_view(envs@)) == Err::<Seq<Sourced>, _>(e.message@),
        },
{
    let ghost sel = crate::text::string_views(selected@);
    let ghost ev = envs_view(envs@);
    let mut vals: Vec<(String, String, String)> = Vec::new();
    let mut k: usize = 0;
    assert(sel.take(0) =~= Seq::<Seq<char>>::empty());
    assert(sourced_view(vals@) =~= Seq::<Sourced>::empty());
    while k < selected.len()
        invariant
            k <= selected@.len(),
            sel == crate::text::string_views(selected@),
            ev == envs_view(envs@),
            collect_env_vars(sel.take(k as int), ev) == Ok::<_, Seq<char>>(sourced_view(vals@)),
        decreases selected@.len() - k,
    {
        let env_name = &selected[k];
        assert(sel.take(k + 1).drop_last() =~= sel.take(k as int));
        assert(sel.take(k + 1).last() == env_name@);
        if !contains_before(selected, k, env_name) {
            match find_env(envs, env_name) {
                None => {
                    let mut message = "Missing environment: ".to_owned();
                    message.append(env_name.as_str());
                    proof {
                        lemma_collect_env_vars_err(sel, ev, k + 1);
                    }
                    return Err(resolve_error(message));
                },
                Some(e) => {
                    match add_env_vars_exec(&mut vals, env_name, &envs[e].1) {
                        Ok(_) => {},
                        Err(err) => {
                            proof {
                                lemma_collect_env_vars_err(sel, ev, k + 1);
                            }
                            return Err(err);
                        },
                    }
                },
            }
        }
        k = k + 1;
    }
    assert(sel.take(k as int) =~= sel);
    Ok(vals)
}

/// Fails on the first inline variable defined twice.
fn apply_inline_vars(inline_vars: &Vec<Variable>) -> (r: Result<(), ResolveError>)
    ensures
        match r {
            Ok(_) => first_duplicate(binding_names(vars_view(inline_vars@))) is None,
            Err(e) => first_duplicate(binding_names(vars_view(inline_vars@))) matches Some(d) && e.message@
                == "Duplicated variable: "@ + d,
        },
{
    let ghost names = binding_names(vars_view(inline_vars@));
    let mut k: usize = 0;
    assert(names.take(0) =~= Seq::<Seq<char>>::empty());
    while k < inline_vars.len()
        invariant
            k <= inline_vars@.len(),
            names == binding_names(vars_view(inline_vars@)),
            first_duplicate(names.take(k as int)) is None,
        decreases inline_vars@.len() - k,
    {
        assert(names.take(k + 1).drop_last() =~= names.take(k as int));
        assert(names.take(k + 1).last() == inline_vars@[k as int].name@);
        assert(names[k as int] == inline_vars@[k as int].name@);
        let mut j: usize = 0;
        while j < k
            invariant
                j <= k < inline_vars@.len(),
                names == binding_names(vars_view(inline_vars@)),
                first_duplicate(names.take(k as int)) is None,
                names.take(k + 1).drop_last() == names.take(k as int),
                names.take(k + 1).last() == names[k as int],
                names[k as int] == inline_vars@[k as int].name@,
                forall|i: int| 0 <= i < j ==> names[i] != names[k as int],
            decreases k - j,
        {
            if inline_vars[j].name == inline_vars[k].name {
                assert(names.take(k as int)[j as int] == names[k as int]);
                assert(names.take(k as int).contains(names[k as int]));
                assert(first_duplicate(names.take(k + 1)) == Some(names[k as int]));
                let mut message = "Duplicated variable: ".to_owned();
                message.append(inline_vars[k].name.as_str());
                proof {
                    lemma_first_duplicate_some(names, k + 1);
                }
                return Err(resolve_error(message));
            }
            j = j + 1;
        }
        assert(!names.take(k as int).contains(names[k as int])) by {
            assert forall|i: int| 0 <= i < k implies names.take(k as int)[i] != names[k as int] by {
                assert(names.take(k as int)[i] == names[i]);
            }
        }
        k = k + 1;
    }
    assert(names.take(k as int) =~= names);
    Ok(())
}

pub proof fn lemma_resolve_headers_err(hs: Seq<Binding>, scope: Seq<Binding>, k: int)
    requires
        0 <= k <= hs.len(),
        resolve_headers(hs.take(k), scope) is Err,
    ensures
        resolve_headers(hs, scope) == resolve_headers(hs.take(k), scope),
    decreases hs.len() - k,
{
    if k < hs.len() {
        assert(hs.take(k + 1).drop_last() =~= hs.take(k));
        lemma_resolve_headers_err(hs, scope, k + 1);
    } else {
        assert(hs.take(k) =~= hs);
    }
}

pub proof fn lemma_header_names_err(hs: Seq<Binding>, k: int)
    requires
        0 <= k <= hs.len(),
        header_template_names(hs.take(k)) is Err,
    ensures
        header_template_names(hs) == header_template_names(hs.take(k)),
    decreases hs.len() - k,
{
    if k < hs.len() {
        assert(hs.take(k + 1).drop_last() =~= hs.take(k));
        lemma_header_names_err(hs, k + 1);
    } else {
        assert(hs.take(k) =~= hs);
    }
}

/// Applies context variables and request-local variables to the parsed request.
pub fn resolve_request(parsed: ParsedRequest, context: ResolveContext) -> (r: Result<Request, ResolveError>)
    ensures
        match r {
            Ok(req) => spec_resolve_request(parsed@, context@) == Ok::<_, Seq<char>>(req@),
            Err(e) => spec_resolve_request(parsed@, context@) == Err::<RequestModel, _>(e.message@),
        },
{
    broadcast use vstd::std_specs::vec::group_vec_axioms;

    let ghost p = parsed@;
    let ghost c = context@;
    let env_vals = match collect_env_vars_exec(&parsed.envs, &context.envs) {
        Ok(v) => v,
        Err(e) => {
            return Err(e);
        },
    };
    match apply_inline_vars(&parsed.vars) {
        Ok(_) => {},
        Err(e) => {
            return Err(e);
        },
    }
    let ParsedRequest { name: _, envs: _, vars, request } = parsed;
    let mut scope: Vec<(String, String)> = Vec::new();
    let mut i: usize = 0;
    assert(pairs_view(scope@) =~= Seq::<Binding>::empty());
    while i < vars.len()
        invariant
            i <= vars@.len(),
            pairs_view(scope@) == vars_view(vars@).take(i as int),
        decreases vars@.len() - i,
    {
        let ghost before = pairs_view(scope@);
        scope.push((vars[i].name.clone(), vars[i].value.clone()));
        assert(pairs_view(scope@) =~= before.push((vars@[i as int].name@, vars@[i as int].value@)));
        assert(vars_view(vars@).take(i + 1) =~= vars_view(vars@).take(i as int).push(
            (vars@[i as int].name@, vars@[i as int].value@),
        ));
        i = i + 1;
    }
    let ghost part1 = pairs_view(scope@);
    assert(part1 =~= vars_view(vars@));
    let mut i: usize = 0;
    while i < env_vals.len()
        invariant
            i <= env_vals@.len(),
            pairs_view(scope@) == part1 + sourced_bindings(sourced_view(env_vals@)).take(i as int),
        decreases env_vals@.len() - i,
    {
        let ghost before = pairs_view(scope@);
        scope.push((env_vals[i].0.clone(), env_vals[i].1.clone()));
        assert(pairs_view(scope@) =~= before.push((env_vals@[i as int].0@, env_vals@[i as int].1@)));
        assert(sourced_bindings(sourced_view(env_vals@)).take(i + 1) =~= sourced_bindings(
            sourced_view(env_vals@),
        ).take(i as int).push((env_vals@[i as int].0@, env_vals@[i as int].1@)));
        assert(pairs_view(scope@) =~= part1 + sourced_bindings(sourced_view(env_vals@)).take(i + 1));
        i = i + 1;
    }
    let ghost part2 = pairs_view(scope@);
    assert(part2 =~= part1 + sourced_bindings(sourced_view(env_vals@)));
    let mut i: usize = 0;
    while i < context.defaults.len()
        invariant
            i <= context.defaults@.len(),
            c.defaults == pairs_view(context.defaults@),
            pairs_view(scope@) == part2 + pairs_view(context.defaults@).take(i as int),
        decreases context.defaults@.len() - i,
    {
        let ghost before = pairs_view(scope@);
        scope.push((context.defaults[i].0.clone(), context.defaults[i].1.clone()));
        assert(pairs_view(scope@) =~= before.push(
            (context.defaults@[i as int].0@, context.defaults@[i as int].1@),
        ));
        assert(pairs_view(context.defaults@).take(i + 1) =~= pairs_view(context.defaults@).take(
            i as int,
        ).push((context.defaults@[i as int].0@, context.defaults@[i as int].1@)));
        assert(pairs_view(scope@) =~= part2 + pairs_view(context.defaults@).take(i + 1));
        i = i + 1;
    }
    let ghost sc = pairs_view(scope@);
    assert(sc =~= p.vars + sourced_bindings(sourced_view(env_vals@)) + c.defaults);
    assert(spec_resolve_vars(p, c) == Ok::<_, Seq<char>>(sc));
    let Request { method, url, headers, body, options } = request;
    assert(url@ == p.request.url);
    let url = match resolve_template(&url, &scope) {
        Ok(u) => u,
        Err(e) => {
            return Err(e);
        },
    };
    assert(spec_resolve_template(p.request.url, sc) == Ok::<_, Seq<char>>(url@));
    let ghost hs = p.request.headers;
    assert(hs == headers_view(headers@));
    let mut new_headers: Vec<Header> = Vec::new();
    let ghost all = headers@;
    assert(hs.take(0) =~= Seq::<Binding>::empty());
    assert(headers_view(new_headers@) =~= Seq::<Binding>::empty());
    for header in it: headers
        invariant
            it.seq() == all,
            hs == headers_view(all),
            sc == pairs_view(scope@),
            hs == p.request.headers,
            p == parsed@,
            c == context@,
            spec_resolve_vars(p, c) == Ok::<_, Seq<char>>(sc),
            spec_resolve_template(p.request.url, sc) == Ok::<_, Seq<char>>(url@),
            resolve_headers(hs.take(it.index() as int), sc) == Ok::<_, Seq<char>>(headers_view(new_headers@)),
    {
        let ghost k = it.index() as int;
        assert(hs.take(k + 1).drop_last() =~= hs.take(k));
        assert(hs.take(k + 1).last() == all[k]@);
        let Header { name, value } = header;
        match resolve_template(&value, &scope) {
            Ok(v) => {
                let ghost before = new_headers@;
                let ghost hv = (name@, v@);
                new_headers.push(Header { name, value: v });
                assert(headers_view(new_headers@) =~= headers_view(before).push(hv));
            },
            Err(e) => {
                proof {
                    lemma_resolve_headers_err(hs, sc, k + 1);
                }
                return Err(e);
            },
        }
    }
    assert(hs.take(hs.len() as int) =~= hs);
    assert(p.request.body == crate::req::model::body_view(body));
    let body = match body {
        None => None,
        Some(RequestBody::Raw(b)) => match resolve_template(&b, &scope) {
            Ok(resolved) => Some(RequestBody::Raw(resolved)),
            Err(e) => {
                assert(resolve_headers(p.request.headers, sc) == Ok::<_, Seq<char>>(headers_view(new_headers@)));
                assert(p.request.body == Some(b@));
                return Err(e);
            },
        },
    };
    Ok(Request { method, url, headers: new_headers, body, options })
}

/// Returns true when the request needs external context from `--context-json`.
pub fn needs_context(parsed: &ParsedRequest) -> (r: Result<bool, ResolveError>)
    ensures
        match r {
            Ok(b) => spec_needs_context(parsed@) == Ok::<_, Seq<char>>(b),
            Err(e) => spec_needs_context(parsed@) == Err::<bool, _>(e.message@),
        },
{
    let ghost p = parsed@;
    if parsed.envs.len() > 0 {
        return Ok(true);
    }
    let mut names: Vec<String> = Vec::new();
    assert(crate::text::string_views(names@) =~= Seq::<Seq<char>>::empty());
    match collect_template_vars(&parsed.request.url, &mut names) {
        Ok(_) => {},
        Err(e) => {
            return Err(e);
        },
    }
    let ghost a = crate::text::string_views(names@);
    let ghost hs = p.request.headers;
    let mut k: usize = 0;
    assert(hs.take(0) =~= Seq::<Binding>::empty());
    assert(a + Seq::<Seq<char>>::empty() =~= a);
    while k < parsed.request.headers.len()
        invariant
            k <= parsed.request.headers@.len(),
            p == parsed@,
            hs == p.request.headers,
            p.envs.len() == 0,
            spec_template_names(p.request.url) == Ok::<_, Seq<char>>(a),
            header_template_names(hs.take(k as int)) matches Ok(b) && crate::text::string_views(names@) == a + b,
        decreases parsed.request.headers@.len() - k,
    {
        assert(hs.take(k + 1).drop_last() =~= hs.take(k as int));
        assert(hs.take(k + 1).last() == parsed.request.headers@[k as int]@);
        let ghost before = crate::text::string_views(names@);
        match collect_template_vars(&parsed.request.headers[k].value, &mut names) {
            Ok(_) => {
                proof {
                    let b = header_template_names(hs.take(k as int))->Ok_0;
                    let ns = spec_template_names(parsed.request.headers@[k as int].value@)->Ok_0;
                    assert(a + b + ns =~= a + (b + ns));
                }
            },
            Err(e) => {
                proof {
                    lemma_header_names_err(hs, k + 1);
                }
                return Err(e);
            },
        }
        k = k + 1;
    }
    assert(hs.take(k as int) =~= hs);
    let ghost ab = crate::text::string_views(names@);
    let ghost b = header_template_names(hs)->Ok_0;
    assert(header_template_names(hs) == Ok::<_, Seq<char>>(b));
    assert(ab == a + b);
    if let Some(RequestBody::Raw(body)) = &parsed.request.body {
        assert(p.request.body == Some(body@));
        match collect_template_vars(body, &mut names) {
            Ok(_) => {
                proof {
                    let cc = spec_template_names(body@)->Ok_0;
                    assert(crate::text::string_views(names@) == a + b + cc);
                }
            },
            Err(e) => {
                assert(spec_template_names(p.request.url) == Ok::<_, Seq<char>>(a));
                assert(request_template_names(p.request) == Err::<Seq<Seq<char>>, _>(e.message@));
                return Err(e);
            },
        }
    } else {
        assert(crate::text::string_views(names@) == a + b);
    }
    let ghost all_names = crate::text::string_views(names@);
    assert(request_template_names(p.request) == Ok::<_, Seq<char>>(all_names));
    let ghost inline = binding_names(p.vars);
    let mut i: usize = 0;
    while i < names.len()
        invariant
            i <= names@.len(),
            all_names == crate::text::string_views(names@),
            p == parsed@,
            p.envs.len() == 0,
            request_template_names(p.request) == Ok::<_, Seq<char>>(all_names),
            inline == binding_names(p.vars),
            forall|j: int| 0 <= j < i ==> inline.contains(#[trigger] all_names[j]),
        decreases names@.len() - i,
    {
        let mut found = false;
        let mut j: usize = 0;
        while j < parsed.vars.len()
            invariant
                j <= parsed.vars@.len(),
                i < names@.len(),
                all_names == crate::text::string_views(names@),
                p == parsed@,
                p.envs.len() == 0,
                request_template_names(p.request) == Ok::<_, Seq<char>>(all_names),
                forall|m: int| 0 <= m < i ==> inline.contains(#[trigger] all_names[m]),
                inline == binding_names(p.vars),
                found ==> inline.contains(all_names[i as int]),
                !found ==> forall|m: int| 0 <= m < j ==> inline[m] != all_names[i as int],
            decreases parsed.vars@.len() - j,
        {
            if parsed.vars[j].name == names[i] {
                assert(inline[j as int] == all_names[i as int]);
                found = true;
            }
            j = j + 1;
        }
        if !found {
            assert(!inline.contains(all_names[i as int]));
            assert(exists|m: int| 0 <= m < all_names.len() && !binding_names(p.vars).contains(#[trigger] all_names[m]));
            proof {
                let names = request_template_names(p.request)->Ok_0;
                assert(names == all_names);
                assert(!(p.envs.len() > 0));
                let w = i as int;
                assert(0 <= w < names.len() && !binding_names(p.vars).contains(names[w]));
                assert(spec_needs_context(p) == Ok::<bool, Seq<char>>(true));
            }
            return Ok(true);
        }
        i = i + 1;
    }
    Ok(false)
}

/// Looking a name up in two lists of bindings: the first list wins.
pub proof fn lemma_lookup_append(a: Seq<Binding>, b: Seq<Binding>, k: Seq<char>)
    ensures
        lookup(a + b, k) == match lookup(a, k) {
            Some(v) => Some(v),
            None => lookup(b, k),
        },
    decreases a.len(),
{
    if a.len() == 0 {
        assert(a + b =~= b);
    } else {
        assert((a + b).drop_first() =~= a.drop_first() + b);
        assert((a + b)[0] == a[0]);
        lemma_lookup_append(a.drop_first(), b, k);
    }
}

/// A name is bound exactly when it is among the binding names.
pub proof fn lemma_lookup_contains(a: Seq<Binding>, k: Seq<char>)
    ensures
        lookup(a, k) is Some <==> binding_names(a).contains(k),
    decreases a.len(),
{
    if a.len() > 0 {
        lemma_lookup_contains(a.drop_first(), k);
        assert(binding_names(a.drop_first()) =~= binding_names(a).drop_first());
        if binding_names(a).contains(k) && a[0].0 != k {
            let i = choose|i: int| 0 <= i < binding_names(a).len() && binding_names(a)[i] == k;
            assert(binding_names(a.drop_first())[i - 1] == k);
        }
        if binding_names(a.drop_first()).contains(k) {
            let i = choose|i: int| 0 <= i < binding_names(a.drop_first()).len() && binding_names(a.drop_first())[i] == k;
            assert(binding_names(a)[i + 1] == k);
        }
        if a[0].0 == k {
            assert(binding_names(a)[0] == k);
        }
    }
}

/// Variable precedence: a name takes the value of the request's inline
/// variable if there is one, else of the selected environment group that
/// defines it, else the default.
pub proof fn lemma_variable_precedence(p: ParsedRequestModel, c: ContextModel, k: Seq<char>)
    requires
        spec_resolve_vars(p, c) is Ok,
    ensures
        ({
            let ev = sourced_bindings(collect_env_vars(p.envs, c.envs)->Ok_0);
            lookup(spec_resolve_vars(p, c)->Ok_0, k) == match lookup(p.vars, k) {
                Some(v) => Some(v),
                None => match lookup(ev, k) {
                    Some(v) => Some(v),
                    None => lookup(c.defaults, k),
                },
            }
        }),
{
    let ev = sourced_bindings(collect_env_vars(p.envs, c.envs)->Ok_0);
    lemma_lookup_append(p.vars + ev, c.defaults, k);
    lemma_lookup_append(p.vars, ev, k);
}

/// With names unique, as in a map, a lookup finds the value of the one
/// binding with that name, wherever it stands.
pub proof fn lemma_lookup_distinct(s: Seq<Binding>, k: Seq<char>, v: Seq<char>)
    requires
        names_distinct(s),
        s.contains((k, v)),
    ensures
        lookup(s, k) == Some(v),
    decreases s.len(),
{
    let i = choose|i: int| 0 <= i < s.len() && s[i] == (k, v);
    if s[0].0 == k {
        if i != 0 {
            assert(s[0].0 != s[i].0);
        }
    } else {
        let t = s.drop_first();
        assert(t[i - 1] == (k, v));
        assert forall|a: int, b: int| 0 <= a < b < t.len() implies #[trigger] t[a].0 != #[trigger] t[b].0 by {
            assert(t[a] == s[a + 1] && t[b] == s[b + 1]);
        }
        lemma_lookup_distinct(t, k, v);
    }
}

/// `lookup` on a prefix-extended list finds what the prefix binds.
pub proof fn lemma_lookup_prefix(a: Seq<Binding>, b: Seq<Binding>, k: Seq<char>)
    requires
        binding_names(a).contains(k),
    ensures
        lookup(a + b, k) == lookup(a, k),
{
    lemma_lookup_contains(a, k);
    lemma_lookup_append(a, b, k);
}

/// Resolving a template whose names the bindings `a` all define does not
/// depend on bindings after `a`.
pub proof fn lemma_template_only_inline(s: Seq<char>, a: Seq<Binding>, b: Seq<Binding>)
    requires
        spec_template_names(s) is Ok,
        forall|i: int| 0 <= i < spec_template_names(s)->Ok_0.len() ==> binding_names(a).contains(
            #[trigger] spec_template_names(s)->Ok_0[i],
        ),
    ensures
        spec_resolve_template(s, a + b) == spec_resolve_template(s, a),
    decreases s.len(),
{
    match index_of_pair(s, '{', '{') {
        None => {},
        Some(i) => {
            let after = s.skip(i + 2int);
            match index_of_pair(after, '}', '}') {
                None => {},
                Some(j) => {
                    let name = trim(after.take(j as int));
                    if name.len() > 0 {
                        lemma_index_of_pair_bound(s, '{', '{');
                        lemma_index_of_pair_bound(after, '}', '}');
                        let rest = after.skip(j + 2int);
                        let ns = spec_template_names(s)->Ok_0;
                        assert(ns[0] == name);
                        lemma_lookup_prefix(a, b, name);
                        let rns = spec_template_names(rest)->Ok_0;
                        assert forall|m: int| 0 <= m < rns.len() implies binding_names(a).contains(
                            #[trigger] rns[m],
                        ) by {
                            assert(ns[m + 1] == rns[m]);
                        }
                        lemma_template_only_inline(rest, a, b);
                    }
                },
            }
        },
    }
}

pub proof fn lemma_headers_only_inline(hs: Seq<Binding>, a: Seq<Binding>, b: Seq<Binding>)
    requires
        header_template_names(hs) is Ok,
        forall|i: int| 0 <= i < header_template_names(hs)->Ok_0.len() ==> binding_names(a).contains(
            #[trigger] header_template_names(hs)->Ok_0[i],
        ),
    ensures
        resolve_headers(hs, a + b) == resolve_headers(hs, a),
    decreases hs.len(),
{
    if hs.len() > 0 {
        let init = hs.drop_last();
        let done = header_template_names(init)->Ok_0;
        let ns = spec_template_names(hs.last().1)->Ok_0;
        let all = header_template_names(hs)->Ok_0;
        assert(all == done + ns);
        assert forall|m: int| 0 <= m < done.len() implies binding_names(a).contains(#[trigger] done[m]) by {
            assert(all[m] == done[m]);
        }
        assert forall|m: int| 0 <= m < ns.len() implies binding_names(a).contains(#[trigger] ns[m]) by {
            assert(all[done.len() + m] == ns[m]);
        }
        lemma_headers_only_inline(init, a, b);
        lemma_template_only_inline(hs.last().1, a, b);
    }
}

/// The default context: no defaults, no groups.
pub open spec fn empty_context() -> ContextModel {
    ContextModel { defaults: seq![], envs: seq![] }
}

/// A request that does not need a context resolves the same with any
/// context as with none: it selects no group and every name it uses is one
/// of its inline variables.
pub proof fn lemma_no_context_needed(p: ParsedRequestModel, c: ContextModel)
    requires
        spec_needs_context(p) == Ok::<bool, Seq<char>>(false),
    ensures
        spec_resolve_request(p, c) == spec_resolve_request(p, empty_context()),
{
    let e = empty_context();
    assert(collect_env_vars(p.envs, c.envs) == Ok::<Seq<Sourced>, Seq<char>>(seq![]));
    assert(collect_env_vars(p.envs, e.envs) == Ok::<Seq<Sourced>, Seq<char>>(seq![]));
    let none: Seq<Sourced> = seq![];
    assert(sourced_bindings(none) =~= Seq::<Binding>::empty());
    if first_duplicate(binding_names(p.vars)) is None {
        let a = p.vars;
        assert(spec_resolve_vars(p, c) == Ok::<_, Seq<char>>(a + sourced_bindings(none) + c.defaults));
        assert(a + sourced_bindings(none) + c.defaults =~= a + c.defaults);
        assert(a + sourced_bindings(none) + e.defaults =~= a);
        let names = request_template_names(p.request)->Ok_0;
        let na = spec_template_names(p.request.url)->Ok_0;
        let nb = header_template_names(p.request.headers)->Ok_0;
        assert forall|m: int| 0 <= m < names.len() implies binding_names(a).contains(#[trigger] names[m]) by {}
        assert forall|m: int| 0 <= m < na.len() implies binding_names(a).contains(#[trigger] na[m]) by {
            assert(names[m] == na[m]);
        }
        assert forall|m: int| 0 <= m < nb.len() implies binding_names(a).contains(#[trigger] nb[m]) by {
            assert(names[na.len() + m] == nb[m]);
        }
        lemma_template_only_inline(p.request.url, a, c.defaults);
        lemma_headers_only_inline(p.request.headers, a, c.defaults);
        if let Some(body) = p.request.body {
            let nc = spec_template_names(body)->Ok_0;
            assert forall|m: int| 0 <= m < nc.len() implies binding_names(a).contains(#[trigger] nc[m]) by {
                assert(names[na.len() + nb.len() + m] == nc[m]);
            }
            lemma_template_only_inline(body, a, c.defaults);
        }
    }
}

/// The bindings of group `g`, tagged with it.
pub open spec fn tagged(e: Seq<Binding>, g: Seq<char>) -> Seq<Sourced> {
    e.map_values(|b: Binding| (b.0, b.1, g))
}

/// No two variables taken from groups share a name.
pub open spec fn sourced_distinct(v: Seq<Sourced>) -> bool {
    forall|i: int, j: int| 0 <= i < j < v.len() ==> #[trigger] v[i].0 != #[trigger] v[j].0
}

pub proof fn lemma_source_of_none(v: Seq<Sourced>, k: Seq<char>)
    ensures
        source_of(v, k) is None <==> forall|i: int| 0 <= i < v.len() ==> (#[trigger] v[i]).0 != k,
    decreases v.len(),
{
    if v.len() > 0 {
        lemma_source_of_none(v.drop_first(), k);
        if source_of(v, k) is None {
            assert forall|i: int| 0 <= i < v.len() implies (#[trigger] v[i]).0 != k by {
                if i > 0 {
                    assert(v[i] == v.drop_first()[i - 1]);
                }
            }
        } else if v[0].0 != k {
            let i = choose|i: int| 0 <= i < v.drop_first().len() && (#[trigger] v.drop_first()[i]).0 == k;
            assert(v[i + 1] == v.drop_first()[i]);
        }
    }
}

pub proof fn lemma_add_env_vars_ok(v: Seq<Sourced>, g: Seq<char>, e: Seq<Binding>)
    requires
        sourced_distinct(v),
        add_env_vars(v, g, e) is Ok,
    ensures
        add_env_vars(v, g, e)->Ok_0 == v + tagged(e, g),
        sourced_distinct(add_env_vars(v, g, e)->Ok_0),
    decreases e.len(),
{
    if e.len() > 0 {
        let init = e.drop_last();
        lemma_add_env_vars_ok(v, g, init);
        let v1 = add_env_vars(v, g, init)->Ok_0;
        lemma_source_of_none(v1, e.last().0);
        assert(tagged(e, g) =~= tagged(init, g).push((e.last().0, e.last().1, g)));
        let v2 = v1.push((e.last().0, e.last().1, g));
        assert forall|i: int, j: int| 0 <= i < j < v2.len() implies #[trigger] v2[i].0 != #[trigger] v2[j].0 by {
            if j < v1.len() {
                assert(v2[i] == v1[i]);
                assert(v2[j] == v1[j]);
            } else {
                assert(v2[i] == v1[i]);
            }
        }
    } else {
        assert(tagged(e, g) =~= Seq::<Sourced>::empty());
        assert(v + tagged(e, g) =~= v);
    }
}

/// On success every variable of every selected group is among the
/// collected ones, tagged with its group, and no two share a name.
pub proof fn lemma_collect_env_vars_ok(sel: Seq<Seq<char>>, envs: Seq<(Seq<char>, Seq<Binding>)>)
    requires
        collect_env_vars(sel, envs) is Ok,
    ensures
        sourced_distinct(collect_env_vars(sel, envs)->Ok_0),
        forall|i: int, m: int|
            #![trigger sel[i], env_lookup(envs, sel[i])->Some_0[m]]
            0 <= i < sel.len() && env_lookup(envs, sel[i]) is Some && 0 <= m < env_lookup(envs, sel[i])->Some_0.len()
                ==> collect_env_vars(sel, envs)->Ok_0.contains(
                (env_lookup(envs, sel[i])->Some_0[m].0, env_lookup(envs, sel[i])->Some_0[m].1, sel[i]),
            ),
    decreases sel.len(),
{
    if sel.len() > 0 {
        let init = sel.drop_last();
        lemma_collect_env_vars_ok(init, envs);
        let v = collect_env_vars(init, envs)->Ok_0;
        let ev = collect_env_vars(sel, envs)->Ok_0;
        let g = sel.last();
        if init.contains(g) {
            assert forall|i: int, m: int|
                #![trigger sel[i], env_lookup(envs, sel[i])->Some_0[m]]
                0 <= i < sel.len() && env_lookup(envs, sel[i]) is Some && 0 <= m < env_lookup(envs, sel[i])->Some_0.len()
                implies ev.contains((env_lookup(envs, sel[i])->Some_0[m].0, env_lookup(envs, sel[i])->Some_0[m].1, sel[i])) by {
                if i < init.len() {
                    assert(init[i] == sel[i]);
                } else {
                    let i2 = choose|i2: int| 0 <= i2 < init.len() && init[i2] == g;
                    assert(init[i2] == sel[i]);
                    assert(sel[i2] == init[i2]);
                }
            }
        } else {
            let e = env_lookup(envs, g)->Some_0;
            lemma_add_env_vars_ok(v, g, e);
            assert(ev == v + tagged(e, g));
            assert forall|i: int, m: int|
                #![trigger sel[i], env_lookup(envs, sel[i])->Some_0[m]]
                0 <= i < sel.len() && env_lookup(envs, sel[i]) is Some && 0 <= m < env_lookup(envs, sel[i])->Some_0.len()
                implies ev.contains((env_lookup(envs, sel[i])->Some_0[m].0, env_lookup(envs, sel[i])->Some_0[m].1, sel[i])) by {
                let t = (env_lookup(envs, sel[i])->Some_0[m].0, env_lookup(envs, sel[i])->Some_0[m].1, sel[i]);
                if i < init.len() {
                    assert(init[i] == sel[i]);
                    let w = choose|w: int| 0 <= w < v.len() && v[w] == t;
                    assert(ev[w] == v[w]);
                } else {
                    assert(ev[v.len() + m] == tagged(e, g)[m]);
                }
            }
        }
    }
}

/// Selected environment groups do not override each other: when two
/// different selected groups define the same variable, resolution fails.
pub proof fn lemma_groups_do_not_override(p: ParsedRequestModel, c: ContextModel, i: int, j: int, k: Seq<char>)
    requires
        0 <= i < p.envs.len(),
        0 <= j < p.envs.len(),
        p.envs[i] != p.envs[j],
        env_lookup(c.envs, p.envs[i]) matches Some(e1) && binding_names(e1).contains(k),
        env_lookup(c.envs, p.envs[j]) matches Some(e2) && binding_names(e2).contains(k),
    ensures
        spec_resolve_request(p, c) is Err,
{
    if collect_env_vars(p.envs, c.envs) is Ok {
        lemma_collect_env_vars_ok(p.envs, c.envs);
        let ev = collect_env_vars(p.envs, c.envs)->Ok_0;
        let e1 = env_lookup(c.envs, p.envs[i])->Some_0;
        let e2 = env_lookup(c.envs, p.envs[j])->Some_0;
        let m1 = choose|m: int| 0 <= m < binding_names(e1).len() && binding_names(e1)[m] == k;
        let m2 = choose|m: int| 0 <= m < binding_names(e2).len() && binding_names(e2)[m] == k;
        assert(binding_names(e1)[m1] == e1[m1].0);
        assert(binding_names(e2)[m2] == e2[m2].0);
        let t1 = (e1[m1].0, e1[m1].1, p.envs[i]);
        let t2 = (e2[m2].0, e2[m2].1, p.envs[j]);
        assert(ev.contains(t1));
        assert(ev.contains(t2));
        let w1 = choose|w: int| 0 <= w < ev.len() && ev[w] == t1;
        let w2 = choose|w: int| 0 <= w < ev.len() && ev[w] == t2;
        assert(w1 != w2);
        if w1 < w2 {
            assert(ev[w1].0 != ev[w2].0);
        } else {
            assert(ev[w2].0 != ev[w1].0);
        }
    }
}

/// Header values without `{{` use no template name.
proof fn lemma_header_names_plain(hs: Seq<Binding>)
    requires
        forall|i: int| 0 <= i < hs.len() ==> index_of_pair(#[trigger] hs[i].1, '{', '{') is None,
    ensures
        header_template_names(hs) == Ok::<_, Seq<char>>(Seq::<Seq<char>>::empty()),
    decreases hs.len(),
{
    if hs.len() > 0 {
        assert(hs[hs.len() - 1] == hs.last());
        assert forall|i: int| 0 <= i < hs.drop_last().len() implies index_of_pair(
            #[trigger] hs.drop_last()[i].1,
            '{',
            '{',
        ) is None by {
            assert(hs.drop_last()[i] == hs[i]);
        }
        lemma_header_names_plain(hs.drop_last());
        assert(Seq::<Seq<char>>::empty() + Seq::<Seq<char>>::empty() =~= Seq::<Seq<char>>::empty());
    }
}

/// When a request needs a context: always when it selects a group; else
/// exactly when some `{{NAME}}` in its URL, header values or body names no
/// inline variable. A request without groups whose text holds no `{{`
/// needs none, whatever its body.
pub proof fn lemma_needs_context_cases(p: ParsedRequestModel)
    ensures
        p.envs.len() > 0 ==> spec_needs_context(p) == Ok::<bool, Seq<char>>(true),
        p.envs.len() == 0 && request_template_names(p.request) is Ok ==> ({
            let names = request_template_names(p.request)->Ok_0;
            &&& (forall|i: int| 0 <= i < names.len() ==> binding_names(p.vars).contains(#[trigger] names[i]))
                ==> spec_needs_context(p) == Ok::<bool, Seq<char>>(false)
            &&& (exists|i: int| 0 <= i < names.len() && !binding_names(p.vars).contains(#[trigger] names[i]))
                ==> spec_needs_context(p) == Ok::<bool, Seq<char>>(true)
        }),
        p.envs.len() == 0 && index_of_pair(p.request.url, '{', '{') is None
            && (forall|i: int| 0 <= i < p.request.headers.len() ==> index_of_pair(#[trigger] p.request.headers[i].1, '{', '{') is None)
            && (p.request.body is Some ==> index_of_pair(p.request.body.unwrap(), '{', '{') is None)
            ==> spec_needs_context(p) == Ok::<bool, Seq<char>>(false),
{
    if p.envs.len() == 0 && index_of_pair(p.request.url, '{', '{') is None
        && (forall|i: int| 0 <= i < p.request.headers.len() ==> index_of_pair(#[trigger] p.request.headers[i].1, '{', '{') is None)
        && (p.request.body is Some ==> index_of_pair(p.request.body.unwrap(), '{', '{') is None) {
        lemma_header_names_plain(p.request.headers);
        let e = Seq::<Seq<char>>::empty();
        assert(e + e =~= e);
        assert(e + e + e =~= e);
        assert(request_template_names(p.request) == Ok::<_, Seq<char>>(e));
    }
}

/// Text without `{{` resolves to itself, in any scope.
pub proof fn lemma_template_plain(s: Seq<char>, scope: Seq<Binding>)
    requires
        index_of_pair(s, '{', '{') is None,
    ensures
        spec_resolve_template(s, scope) == Ok::<_, Seq<char>>(s),
{
}

/// The first `{{ NAME }}` of a text is replaced by the value `NAME` (trimmed)
/// has in scope, the text before it is kept, and the rest is resolved the
/// same way.
pub proof fn lemma_template_first_name(pre: Seq<char>, name: Seq<char>, post: Seq<char>, scope: Seq<Binding>, v: Seq<char>)
    requires
        index_of_pair(pre + seq!['{'], '{', '{') is None,
        index_of_pair(name + seq!['}'], '}', '}') is None,
        trim(name).len() > 0,
        lookup(scope, trim(name)) == Some(v),
    ensures
        spec_resolve_template(pre + seq!['{', '{'] + name + seq!['}', '}'] + post, scope) == match spec_resolve_template(post, scope) {
            Ok(rest) => Ok::<_, Seq<char>>(pre + v + rest),
            Err(e) => Err(e),
        },
{
    let y = seq!['}', '}'] + post;
    let after = name + y;
    let s = pre + seq!['{', '{'] + name + seq!['}', '}'] + post;
    assert(s =~= pre + (seq!['{', '{'] + after));
    lemma_first_pair_at_join(pre, seq!['{', '{'] + after, '{', '{');
    assert(s.skip(pre.len() + 2int) =~= after);
    lemma_first_pair_at_join(name, y, '}', '}');
    assert(after.take(name.len() as int) =~= name);
    assert(after.skip(name.len() + 2int) =~= post);
    assert(s.take(pre.len() as int) =~= pre);
}

/// A resolved request keeps the method and the transport options; its URL,
/// each header value (under the same header name, in the same order) and
/// its body are the parsed ones with their `{{NAME}}` expressions resolved
/// in the request's scope.
pub proof fn lemma_resolved_request_parts(p: ParsedRequestModel, c: ContextModel)
    requires
        spec_resolve_request(p, c) is Ok,
    ensures
        ({
            let r = spec_resolve_request(p, c)->Ok_0;
            let scope = spec_resolve_vars(p, c)->Ok_0;
            &&& r.method == p.request.method
            &&& r.timeout_ms == p.request.timeout_ms
            &&& spec_resolve_template(p.request.url, scope) == Ok::<_, Seq<char>>(r.url)
            &&& r.headers.len() == p.request.headers.len()
            &&& forall|i: int| 0 <= i < r.headers.len() ==> {
                &&& (#[trigger] r.headers[i]).0 == p.request.headers[i].0
                &&& spec_resolve_template(p.request.headers[i].1, scope) == Ok::<_, Seq<char>>(r.headers[i].1)
            }
            &&& (p.request.body is None <==> r.body is None)
            &&& p.request.body is Some ==> spec_resolve_template(p.request.body.unwrap(), scope) == Ok::<_, Seq<char>>(r.body.unwrap())
        }),
{
    let scope = spec_resolve_vars(p, c)->Ok_0;
    lemma_resolve_headers_parts(p.request.headers, scope);
}

proof fn lemma_resolve_headers_parts(hs: Seq<Binding>, scope: Seq<Binding>)
    requires
        resolve_headers(hs, scope) is Ok,
    ensures
        ({
            let out = resolve_headers(hs, scope)->Ok_0;
            &&& out.len() == hs.len()
            &&& forall|i: int| 0 <= i < out.len() ==> {
                &&& (#[trigger] out[i]).0 == hs[i].0
                &&& spec_resolve_template(hs[i].1, scope) == Ok::<_, Seq<char>>(out[i].1)
            }
        }),
    decreases hs.len(),
{
    if hs.len() > 0 {
        lemma_resolve_headers_parts(hs.drop_last(), scope);
        let out = resolve_headers(hs, scope)->Ok_0;
        let done = resolve_headers(hs.drop_last(), scope)->Ok_0;
        assert forall|i: int| 0 <= i < out.len() implies {
            &&& (#[trigger] out[i]).0 == hs[i].0
            &&& spec_resolve_template(hs[i].1, scope) == Ok::<_, Seq<char>>(out[i].1)
        } by {
            if i < hs.len() - 1 {
                assert(out[i] == done[i]);
                assert(hs[i] == hs.drop_last()[i]);
            }
        }
    }
}

} // verus!
