//! Placeholder resolution in MCP `command` / `args` / `env` values.
//!
//! `{root}` becomes the install root; `{env:VAR}` and `{user:VAR}` become the
//! value given with `--env VAR=...`, else the value of the environment
//! variable, else the empty string (with a warning). Names without a value
//! are asked for first (`placeholders_to_ask`); each answer joins the
//! overrides (`with_answer`) and so decides its placeholder.

use vstd::prelude::*;
use crate::text::{
    chars_of, decimal, decimal_string, find, find_char, find_first, find_from, lemma_find_first,
    lemma_find_from, matches_at, occurs_at, owned, push_all, str_eq, string_of, sub_chars, utf8_len,
    utf8_prefix_len, find_at_or_after, lemma_occurs_single,
};

verus! {

/// `KEY=VALUE` pairs given on the command line, in the order given.
pub struct EnvOverrides {
    pub pairs: Vec<(String, String)>,
}

/// A snapshot of the process environment: name and value of each variable
/// whose name and value are valid Unicode.
pub struct EnvSnapshot {
    pub vars: Vec<(String, String)>,
}

/// A sequence of string pairs, taken by their characters.
pub open spec fn pairs_view(v: Seq<(String, String)>) -> Seq<(Seq<char>, Seq<char>)> {
    v.map_values(|p: (String, String)| (p.0@, p.1@))
}

impl View for EnvOverrides {
    type V = Seq<(Seq<char>, Seq<char>)>;

    open spec fn view(&self) -> Seq<(Seq<char>, Seq<char>)> {
        pairs_view(self.pairs@)
    }
}

impl View for EnvSnapshot {
    type V = Seq<(Seq<char>, Seq<char>)>;

    open spec fn view(&self) -> Seq<(Seq<char>, Seq<char>)> {
        pairs_view(self.vars@)
    }
}

/// The pairs that `--env` items give: each item that holds `=` is split at
/// its first `=`; items without `=` are ignored.
pub open spec fn override_pairs(items: Seq<Seq<char>>) -> Seq<(Seq<char>, Seq<char>)>
    decreases items.len(),
{
    if items.len() == 0 {
        seq![]
    } else {
        let prev = override_pairs(items.drop_last());
        let item = items.last();
        match find_first(item, seq!['=']) {
            Some(p) => prev.push((item.take(p), item.skip(p + 1))),
            None => prev,
        }
    }
}

/// The value of the last pair with key `k` (a later `--env` wins).
pub open spec fn last_value(pairs: Seq<(Seq<char>, Seq<char>)>, k: Seq<char>) -> Option<Seq<char>>
    decreases pairs.len(),
{
    if pairs.len() == 0 {
        None
    } else if pairs.last().0 == k {
        Some(pairs.last().1)
    } else {
        last_value(pairs.drop_last(), k)
    }
}

/// The value of the first pair with key `k`.
pub open spec fn first_value(pairs: Seq<(Seq<char>, Seq<char>)>, k: Seq<char>) -> Option<Seq<char>>
    decreases pairs.len(),
{
    if pairs.len() == 0 {
        None
    } else if pairs[0].0 == k {
        Some(pairs[0].1)
    } else {
        first_value(pairs.drop_first(), k)
    }
}

/// The map from key to value that the `--env` items define.
pub open spec fn overrides_map(items: Seq<Seq<char>>) -> Map<Seq<char>, Seq<char>> {
    let pairs = override_pairs(items);
    Map::new(|k: Seq<char>| last_value(pairs, k) is Some, |k: Seq<char>| last_value(pairs, k).unwrap())
}

/// The strings of a vector, taken by their characters.
pub open spec fn strings_view(v: Seq<String>) -> Seq<Seq<char>> {
    v.map_values(|s: String| s@)
}

/// Parse `KEY=VALUE` items given with `--env`.
pub fn parse_env_overrides(items: &Vec<String>) -> (res: EnvOverrides)
    ensures
        res@ == override_pairs(strings_view(items@)),
{
    let mut pairs: Vec<(String, String)> = Vec::new();
    let mut i: usize = 0;
    while i < items.len()
        invariant
            i <= items.len(),
            pairs_view(pairs@) == override_pairs(strings_view(items@).take(i as int)),
        decreases items.len() - i,
    {
        let cs = chars_of(items[i].as_str());
        let ghost taken = strings_view(items@).take(i + 1);
        assert(taken.drop_last() == strings_view(items@).take(i as int));
        assert(taken.last() == cs@);
        match find_char(cs.as_slice(), '=', 0) {
            Some(p) => {
                proof {
                    lemma_find_first(cs@, seq!['=']);
                }
                let k = sub_chars(cs.as_slice(), 0, p);
                let n = cs.len();
                let v = sub_chars(cs.as_slice(), p + 1, n);
                assert(k@ == cs@.take(p as int));
                assert(v@ == cs@.skip(p + 1));
                pairs.push((string_of(k.as_slice()), string_of(v.as_slice())));
                assert(pairs_view(pairs@) =~= override_pairs(taken));
            },
            None => {
                assert(pairs_view(pairs@) =~= override_pairs(taken));
            },
        }
        i = i + 1;
    }
    assert(strings_view(items@).take(items.len() as int) == strings_view(items@));
    EnvOverrides { pairs }
}

/// The `--env` value of `k`, the last one given.
pub fn override_value(ov: &EnvOverrides, k: &[char]) -> (res: Option<Vec<char>>)
    ensures
        res matches Some(v) ==> last_value(ov@, k@) == Some(v@),
        res is None ==> last_value(ov@, k@) is None,
{
    let mut i = ov.pairs.len();
    assert(ov@.take(i as int) == ov@);
    while i > 0
        invariant
            i <= ov.pairs.len(),
            last_value(ov@, k@) == last_value(ov@.take(i as int), k@),
        decreases i,
    {
        let ghost pre = ov@.take(i as int);
        assert(pre.drop_last() == ov@.take(i - 1));
        let key = chars_of(ov.pairs[i - 1].0.as_str());
        let same = key.len() == k.len() && matches_at(key.as_slice(), k, 0);
        proof {
            if key@.len() == k@.len() {
                assert(key@.subrange(0, k@.len() as int) == key@);
            }
        }
        if same {
            return Some(chars_of(ov.pairs[i - 1].1.as_str()));
        }
        i = i - 1;
    }
    None
}

/// The environment's value of `k`.
pub fn env_value(env: &EnvSnapshot, k: &[char]) -> (res: Option<Vec<char>>)
    ensures
        res matches Some(v) ==> first_value(env@, k@) == Some(v@),
        res is None ==> first_value(env@, k@) is None,
{
    let mut i: usize = 0;
    assert(env@.skip(0) == env@);
    while i < env.vars.len()
        invariant
            i <= env.vars.len(),
            first_value(env@, k@) == first_value(env@.skip(i as int), k@),
        decreases env.vars.len() - i,
    {
        let ghost post = env@.skip(i as int);
        assert(post.drop_first() == env@.skip(i + 1));
        let key = chars_of(env.vars[i].0.as_str());
        let same = key.len() == k.len() && matches_at(key.as_slice(), k, 0);
        proof {
            if key@.len() == k@.len() {
                assert(key@.subrange(0, k@.len() as int) == key@);
            }
        }
        if same {
            return Some(chars_of(env.vars[i].1.as_str()));
        }
        i = i + 1;
    }
    None
}

/// The value that a placeholder naming `var` is replaced by.
pub open spec fn placeholder_value(
    ov: Seq<(Seq<char>, Seq<char>)>,
    env: Seq<(Seq<char>, Seq<char>)>,
    var: Seq<char>,
) -> Seq<char> {
    match last_value(ov, var) {
        Some(v) => v,
        None => match first_value(env, var) {
            Some(v) => v,
            None => seq![],
        },
    }
}

/// The value that a placeholder naming `var` is replaced by.
pub fn lookup_placeholder(ov: &EnvOverrides, env: &EnvSnapshot, var: &[char]) -> (res: Vec<char>)
    ensures
        res@ == placeholder_value(ov@, env@, var@),
{
    match override_value(ov, var) {
        Some(v) => v,
        None => match env_value(env, var) {
            Some(v) => v,
            None => Vec::new(),
        },
    }
}

/// `{root}`
pub open spec fn root_tag() -> Seq<char> {
    seq!['{', 'r', 'o', 'o', 't', '}']
}

/// `{env:`
pub open spec fn env_tag() -> Seq<char> {
    seq!['{', 'e', 'n', 'v', ':']
}

/// `{user:`
pub open spec fn user_tag() -> Seq<char> {
    seq!['{', 'u', 's', 'e', 'r', ':']
}

/// Replace the first `{root}` in `s` by `root`.
pub open spec fn root_step(s: Seq<char>, root: Seq<char>) -> Seq<char> {
    match find_first(s, root_tag()) {
        Some(p) => s.take(p) + root + s.skip(p + 6),
        None => s,
    }
}

/// Repeated replacement of the first `{root}` comes to an end within
/// `fuel` replacements.
pub open spec fn root_done_within(s: Seq<char>, root: Seq<char>, fuel: nat) -> bool
    decreases fuel,
{
    if find_first(s, root_tag()) is None {
        true
    } else if fuel == 0 {
        false
    } else {
        root_done_within(root_step(s, root), root, (fuel - 1) as nat)
    }
}

/// The text after at most `fuel` replacements of the first `{root}`.
pub open spec fn root_run(s: Seq<char>, root: Seq<char>, fuel: nat) -> Seq<char>
    decreases fuel,
{
    if find_first(s, root_tag()) is None || fuel == 0 {
        s
    } else {
        root_run(root_step(s, root), root, (fuel - 1) as nat)
    }
}

/// Replacing the first `{root}` again and again comes to an end.
pub open spec fn root_terminates(s: Seq<char>, root: Seq<char>) -> bool {
    exists|f: nat| root_done_within(s, root, f)
}

/// The text once no `{root}` is left.
pub open spec fn expand_root(s: Seq<char>, root: Seq<char>) -> Seq<char> {
    root_run(s, root, choose|f: nat| root_done_within(s, root, f))
}

/// The warning for a placeholder whose `}` is missing; `at` is its byte offset.
pub open spec fn unterminated_warning(at: nat) -> Seq<char> {
    "unterminated placeholder at "@ + decimal(at)
}

/// The warning for a placeholder that resolved to the empty string.
pub open spec fn empty_warning(name: Seq<char>, var: Seq<char>) -> Seq<char> {
    name + " is empty; please provide it via --env "@ + var + "="@ + var
        + "... or your environment"@
}

/// One step of resolving the placeholders that start with `tag`
/// (`name` is how warnings call them). The flag is set when resolution
/// stops after this step.
pub open spec fn tag_step(
    s: Seq<char>,
    w: Seq<Seq<char>>,
    tag: Seq<char>,
    name: Seq<char>,
    ov: Seq<(Seq<char>, Seq<char>)>,
    env: Seq<(Seq<char>, Seq<char>)>,
) -> (bool, Seq<char>, Seq<Seq<char>>) {
    match find_first(s, tag) {
        None => (true, s, w),
        Some(start) => {
            let body = start + tag.len();
            match find_from(s, seq!['}'], body) {
                None => (true, s, w.push(unterminated_warning(utf8_len(s.take(start))))),
                Some(end) => {
                    let var = s.subrange(body, end);
                    let value = placeholder_value(ov, env, var);
                    let w2 = if value.len() == 0 {
                        w.push(empty_warning(name, var))
                    } else {
                        w
                    };
                    (false, s.take(start) + value + s.skip(end + 1), w2)
                },
            }
        },
    }
}

/// Resolution of the `tag` placeholders stops within `fuel` steps.
pub open spec fn tag_done_within(
    s: Seq<char>,
    w: Seq<Seq<char>>,
    tag: Seq<char>,
    name: Seq<char>,
    ov: Seq<(Seq<char>, Seq<char>)>,
    env: Seq<(Seq<char>, Seq<char>)>,
    fuel: nat,
) -> bool
    decreases fuel,
{
    let st = tag_step(s, w, tag, name, ov, env);
    if st.0 {
        true
    } else if fuel == 0 {
        false
    } else {
        tag_done_within(st.1, st.2, tag, name, ov, env, (fuel - 1) as nat)
    }
}

/// Text and warnings after at most `fuel` steps of resolving `tag`.
pub open spec fn tag_run(
    s: Seq<char>,
    w: Seq<Seq<char>>,
    tag: Seq<char>,
    name: Seq<char>,
    ov: Seq<(Seq<char>, Seq<char>)>,
    env: Seq<(Seq<char>, Seq<char>)>,
    fuel: nat,
) -> (Seq<char>, Seq<Seq<char>>)
    decreases fuel,
{
    let st = tag_step(s, w, tag, name, ov, env);
    if st.0 {
        (st.1, st.2)
    } else if fuel == 0 {
        (s, w)
    } else {
        tag_run(st.1, st.2, tag, name, ov, env, (fuel - 1) as nat)
    }
}

/// Resolution of the `tag` placeholders comes to an end.
pub open spec fn tag_terminates(
    s: Seq<char>,
    w: Seq<Seq<char>>,
    tag: Seq<char>,
    name: Seq<char>,
    ov: Seq<(Seq<char>, Seq<char>)>,
    env: Seq<(Seq<char>, Seq<char>)>,
) -> bool {
    exists|f: nat| tag_done_within(s, w, tag, name, ov, env, f)
}

/// Text and warnings once resolution of the `tag` placeholders has ended.
pub open spec fn expand_tag(
    s: Seq<char>,
    w: Seq<Seq<char>>,
    tag: Seq<char>,
    name: Seq<char>,
    ov: Seq<(Seq<char>, Seq<char>)>,
    env: Seq<(Seq<char>, Seq<char>)>,
) -> (Seq<char>, Seq<Seq<char>>) {
    tag_run(s, w, tag, name, ov, env, choose|f: nat| tag_done_within(s, w, tag, name, ov, env, f))
}

/// `{env`, how warnings name `{env:` placeholders.
pub open spec fn env_name() -> Seq<char> {
    env_tag().drop_last()
}

/// `{user`, how warnings name `{user:` placeholders.
pub open spec fn user_name() -> Seq<char> {
    user_tag().drop_last()
}

/// Text and warnings after `{root}` and the `{env:` placeholders.
pub open spec fn after_env(
    input: Seq<char>,
    root: Seq<char>,
    ov: Seq<(Seq<char>, Seq<char>)>,
    env: Seq<(Seq<char>, Seq<char>)>,
) -> (Seq<char>, Seq<Seq<char>>) {
    expand_tag(expand_root(input, root), seq![], env_tag(), env_name(), ov, env)
}

/// Resolving `input` comes to an end: placeholders are replaced until none
/// is left, which runs forever where a replacement brings the same
/// placeholder back (such as `{env:A}` where `A` is `{env:A}`).
pub open spec fn resolution_terminates(
    input: Seq<char>,
    root: Seq<char>,
    ov: Seq<(Seq<char>, Seq<char>)>,
    env: Seq<(Seq<char>, Seq<char>)>,
) -> bool {
    &&& root_terminates(input, root)
    &&& tag_terminates(expand_root(input, root), seq![], env_tag(), env_name(), ov, env)
    &&& tag_terminates(
        after_env(input, root, ov, env).0,
        after_env(input, root, ov, env).1,
        user_tag(),
        user_name(),
        ov,
        env,
    )
}

/// The resolved text and the warnings, in the order they were raised.
pub open spec fn resolution(
    input: Seq<char>,
    root: Seq<char>,
    ov: Seq<(Seq<char>, Seq<char>)>,
    env: Seq<(Seq<char>, Seq<char>)>,
) -> (Seq<char>, Seq<Seq<char>>) {
    let e = after_env(input, root, ov, env);
    expand_tag(e.0, e.1, user_tag(), user_name(), ov, env)
}

/// One replacement of the first `{root}` in `s` by `root`; `None` when
/// `s` holds no `{root}`.
fn root_step_exec(s: &Vec<char>, root: &[char], tag: &[char]) -> (res: Option<Vec<char>>)
    requires
        tag@ == root_tag(),
    ensures
        res is None <==> find_first(s@, root_tag()) is None,
        res matches Some(next) ==> next@ == root_step(s@, root@),
{
    match find(s.as_slice(), tag) {
        None => None,
        Some(pos) => {
            proof {
                lemma_find_first(s@, root_tag());
            }
            assert(occurs_at(s@, root_tag(), pos as int));
            let mut next = sub_chars(s.as_slice(), 0, pos);
            push_all(&mut next, root);
            let n = s.len();
            let rest = sub_chars(s.as_slice(), pos + 6, n);
            push_all(&mut next, rest.as_slice());
            assert(next@ =~= root_step(s@, root@));
            Some(next)
        },
    }
}

/// Replace every `{root}` in `s` by `root`, first occurrence first, until
/// none is left.
fn expand_root_exec(s: Vec<char>, root: &[char]) -> (res: Vec<char>)
    requires
        root_terminates(s@, root@),
    ensures
        res@ == expand_root(s@, root@),
{
    let tag = vec!['{', 'r', 'o', 'o', 't', '}'];
    assert(tag@ == root_tag());
    let ghost fuel: nat = choose|f: nat| root_done_within(s@, root@, f);
    let ghost target = expand_root(s@, root@);
    let ghost mut k: nat = fuel;
    let mut out = s;
    loop
        invariant
            tag@ == root_tag(),
            root_done_within(out@, root@, k),
            root_run(out@, root@, k) == target,
            target == expand_root(s@, root@),
        decreases k,
    {
        match root_step_exec(&out, root, tag.as_slice()) {
            None => {
                return out;
            },
            Some(next) => {
                proof {
                    k = (k - 1) as nat;
                }
                out = next;
            },
        }
    }
}

/// `{root}` expansion with at most `fuel` replacements: the text once no
/// `{root}` is left, or `None` when one is still left after them.
fn root_run_fuel(s: Vec<char>, root: &[char], fuel: u64) -> (res: Option<Vec<char>>)
    ensures
        res is Some <==> root_done_within(s@, root@, fuel as nat),
        res matches Some(o) ==> o@ == root_run(s@, root@, fuel as nat),
{
    let tag = vec!['{', 'r', 'o', 'o', 't', '}'];
    assert(tag@ == root_tag());
    let mut k: u64 = fuel;
    let mut out = s;
    loop
        invariant
            tag@ == root_tag(),
            root_done_within(out@, root@, k as nat) == root_done_within(s@, root@, fuel as nat),
            root_run(out@, root@, k as nat) == root_run(s@, root@, fuel as nat),
        decreases k,
    {
        match root_step_exec(&out, root, tag.as_slice()) {
            None => {
                return Some(out);
            },
            Some(next) => {
                if k == 0 {
                    return None;
                }
                k = k - 1;
                out = next;
            },
        }
    }
}

/// One step of resolving the placeholders that start with `tag`, as
/// `tag_step` states it.
fn tag_step_exec(
    out: Vec<char>,
    warns: Vec<String>,
    tag: &[char],
    name: &str,
    ov: &EnvOverrides,
    env: &EnvSnapshot,
) -> (res: (bool, Vec<char>, Vec<String>))
    requires
        tag@.len() > 0,
    ensures
        (res.0, res.1@, strings_view(res.2@)) == tag_step(
            out@,
            strings_view(warns@),
            tag@,
            name@,
            ov@,
            env@,
        ),
{
    let ghost st = tag_step(out@, strings_view(warns@), tag@, name@, ov@, env@);
    let mut warns = warns;
    match find(out.as_slice(), tag) {
        None => {
            (true, out, warns)
        },
        Some(start) => {
            proof {
                lemma_find_first(out@, tag@);
            }
            assert(occurs_at(out@, tag@, start as int));
            let n = out.len();
            let body = start + tag.len();
            match find_char(out.as_slice(), '}', body) {
                None => {
                    let at = utf8_prefix_len(out.as_slice(), start);
                    let mut msg = String::from_str("unterminated placeholder at ");
                    let digits = decimal_string(at);
                    msg.append(digits.as_str());
                    warns.push(msg);
                    assert(strings_view(warns@) =~= st.2);
                    (true, out, warns)
                },
                Some(end) => {
                    proof {
                        lemma_find_from(out@, seq!['}'], body as int);
                    }
                    assert(occurs_at(out@, seq!['}'], end as int));
                    let var = sub_chars(out.as_slice(), body, end);
                    let value = lookup_placeholder(ov, env, var.as_slice());
                    if value.len() == 0 {
                        let var_s = string_of(var.as_slice());
                        let mut msg = owned(name);
                        msg.append(" is empty; please provide it via --env ");
                        msg.append(var_s.as_str());
                        msg.append("=");
                        msg.append(var_s.as_str());
                        msg.append("... or your environment");
                        warns.push(msg);
                    }
                    assert(strings_view(warns@) =~= st.2);
                    let mut next = sub_chars(out.as_slice(), 0, start);
                    push_all(&mut next, value.as_slice());
                    let rest = sub_chars(out.as_slice(), end + 1, n);
                    push_all(&mut next, rest.as_slice());
                    assert(next@ =~= st.1);
                    (false, next, warns)
                },
            }
        },
    }
}

/// Resolve the placeholders that start with `tag`, first occurrence first,
/// until none is left or one lacks its `}`.
fn expand_tag_exec(
    s: Vec<char>,
    warnings: Vec<String>,
    tag: &[char],
    name: &str,
    ov: &EnvOverrides,
    env: &EnvSnapshot,
) -> (res: (Vec<char>, Vec<String>))
    requires
        tag@.len() > 0,
        tag_terminates(s@, strings_view(warnings@), tag@, name@, ov@, env@),
    ensures
        (res.0@, strings_view(res.1@)) == expand_tag(
            s@,
            strings_view(warnings@),
            tag@,
            name@,
            ov@,
            env@,
        ),
{
    let ghost fuel: nat = choose|f: nat|
        tag_done_within(s@, strings_view(warnings@), tag@, name@, ov@, env@, f);
    let ghost target = expand_tag(s@, strings_view(warnings@), tag@, name@, ov@, env@);
    let ghost mut k: nat = fuel;
    let mut out = s;
    let mut warns = warnings;
    loop
        invariant
            tag@.len() > 0,
            tag_done_within(out@, strings_view(warns@), tag@, name@, ov@, env@, k),
            tag_run(out@, strings_view(warns@), tag@, name@, ov@, env@, k) == target,
            target == expand_tag(s@, strings_view(warnings@), tag@, name@, ov@, env@),
        decreases k,
    {
        let (done, next, next_w) = tag_step_exec(out, warns, tag, name, ov, env);
        if done {
            return (next, next_w);
        }
        proof {
            k = (k - 1) as nat;
        }
        out = next;
        warns = next_w;
    }
}

/// Resolution of the `tag` placeholders with at most `fuel` replacements:
/// text and warnings once it stops, or `None` when it has not stopped
/// after them.
fn tag_run_fuel(
    s: Vec<char>,
    warnings: Vec<String>,
    tag: &[char],
    name: &str,
    ov: &EnvOverrides,
    env: &EnvSnapshot,
    fuel: u64,
) -> (res: Option<(Vec<char>, Vec<String>)>)
    requires
        tag@.len() > 0,
    ensures
        res is Some <==> tag_done_within(
            s@,
            strings_view(warnings@),
            tag@,
            name@,
            ov@,
            env@,
            fuel as nat,
        ),
        res matches Some(r) ==> (r.0@, strings_view(r.1@)) == tag_run(
            s@,
            strings_view(warnings@),
            tag@,
            name@,
            ov@,
            env@,
            fuel as nat,
        ),
{
    let ghost w0 = strings_view(warnings@);
    let mut k: u64 = fuel;
    let mut out = s;
    let mut warns = warnings;
    loop
        invariant
            tag@.len() > 0,
            w0 == strings_view(warnings@),
            tag_done_within(out@, strings_view(warns@), tag@, name@, ov@, env@, k as nat)
                == tag_done_within(s@, w0, tag@, name@, ov@, env@, fuel as nat),
            tag_run(out@, strings_view(warns@), tag@, name@, ov@, env@, k as nat) == tag_run(
                s@,
                w0,
                tag@,
                name@,
                ov@,
                env@,
                fuel as nat,
            ),
        decreases k,
    {
        let (done, next, next_w) = tag_step_exec(out, warns, tag, name, ov, env);
        if done {
            return Some((next, next_w));
        }
        if k == 0 {
            return None;
        }
        k = k - 1;
        out = next;
        warns = next_w;
    }
}

/// Resolve `{root}`, then `{env:VAR}`, then `{user:VAR}` placeholders in
/// `input`. Returns the resolved text and the warnings raised, in order.
pub fn resolve_text(input: &str, root: &str, ov: &EnvOverrides, env: &EnvSnapshot) -> (res: (
    String,
    Vec<String>,
))
    requires
        resolution_terminates(input@, root@, ov@, env@),
    ensures
        (res.0@, strings_view(res.1@)) == resolution(input@, root@, ov@, env@),
{
    let root_cs = chars_of(root);
    let s1 = expand_root_exec(chars_of(input), root_cs.as_slice());
    let env_t = vec!['{', 'e', 'n', 'v', ':'];
    assert(env_t@ == env_tag());
    let empty: Vec<String> = Vec::new();
    assert(strings_view(empty@) =~= Seq::<Seq<char>>::empty());
    let env_n = "{env";
    proof {
        reveal_strlit("{env");
        assert(env_n@ =~= env_name());
    }
    let (s2, w2) = expand_tag_exec(s1, empty, env_t.as_slice(), env_n, ov, env);
    let user_t = vec!['{', 'u', 's', 'e', 'r', ':'];
    assert(user_t@ == user_tag());
    let user_n = "{user";
    proof {
        reveal_strlit("{user");
        assert(user_n@ =~= user_name());
    }
    let (s3, w3) = expand_tag_exec(s2, w2, user_t.as_slice(), user_n, ov, env);
    (string_of(s3.as_slice()), w3)
}

/// Each stage of resolving `input` (`{root}`, `{env:`, `{user:`) stops
/// within `fuel` replacements.
pub open spec fn resolution_done_within(
    input: Seq<char>,
    root: Seq<char>,
    ov: Seq<(Seq<char>, Seq<char>)>,
    env: Seq<(Seq<char>, Seq<char>)>,
    fuel: nat,
) -> bool {
    let s1 = root_run(input, root, fuel);
    let e = tag_run(s1, seq![], env_tag(), env_name(), ov, env, fuel);
    &&& root_done_within(input, root, fuel)
    &&& tag_done_within(s1, seq![], env_tag(), env_name(), ov, env, fuel)
    &&& tag_done_within(e.0, e.1, user_tag(), user_name(), ov, env, fuel)
}

/// Once `{root}` expansion has stopped, more fuel gives the same text.
proof fn lemma_root_run_stable(s: Seq<char>, root: Seq<char>, f: nat, g: nat)
    requires
        root_done_within(s, root, f),
        root_done_within(s, root, g),
    ensures
        root_run(s, root, f) == root_run(s, root, g),
    decreases f,
{
    if find_first(s, root_tag()) is Some {
        lemma_root_run_stable(root_step(s, root), root, (f - 1) as nat, (g - 1) as nat);
    }
}

/// Once resolution of a tag has stopped, more fuel gives the same result.
proof fn lemma_tag_run_stable(
    s: Seq<char>,
    w: Seq<Seq<char>>,
    tag: Seq<char>,
    name: Seq<char>,
    ov: Seq<(Seq<char>, Seq<char>)>,
    env: Seq<(Seq<char>, Seq<char>)>,
    f: nat,
    g: nat,
)
    requires
        tag_done_within(s, w, tag, name, ov, env, f),
        tag_done_within(s, w, tag, name, ov, env, g),
    ensures
        tag_run(s, w, tag, name, ov, env, f) == tag_run(s, w, tag, name, ov, env, g),
    decreases f,
{
    let st = tag_step(s, w, tag, name, ov, env);
    if !st.0 {
        lemma_tag_run_stable(st.1, st.2, tag, name, ov, env, (f - 1) as nat, (g - 1) as nat);
    }
}

/// Resolution that stops within some fuel comes to an end, with the
/// result that the fuelled run gives.
proof fn lemma_done_within_terminates(
    input: Seq<char>,
    root: Seq<char>,
    ov: Seq<(Seq<char>, Seq<char>)>,
    env: Seq<(Seq<char>, Seq<char>)>,
    fuel: nat,
)
    requires
        resolution_done_within(input, root, ov, env, fuel),
    ensures
        resolution_terminates(input, root, ov, env),
        resolution(input, root, ov, env) == tag_run(
            tag_run(root_run(input, root, fuel), seq![], env_tag(), env_name(), ov, env, fuel).0,
            tag_run(root_run(input, root, fuel), seq![], env_tag(), env_name(), ov, env, fuel).1,
            user_tag(),
            user_name(),
            ov,
            env,
            fuel,
        ),
{
    let w0: Seq<Seq<char>> = seq![];
    assert(root_terminates(input, root));
    let f1 = choose|f: nat| root_done_within(input, root, f);
    lemma_root_run_stable(input, root, f1, fuel);
    let s1 = root_run(input, root, fuel);
    assert(expand_root(input, root) == s1);
    assert(tag_terminates(s1, w0, env_tag(), env_name(), ov, env));
    let f2 = choose|f: nat| tag_done_within(s1, w0, env_tag(), env_name(), ov, env, f);
    lemma_tag_run_stable(s1, w0, env_tag(), env_name(), ov, env, f2, fuel);
    let e = tag_run(s1, w0, env_tag(), env_name(), ov, env, fuel);
    assert(after_env(input, root, ov, env) == e);
    assert(tag_terminates(e.0, e.1, user_tag(), user_name(), ov, env));
    let f3 = choose|f: nat| tag_done_within(e.0, e.1, user_tag(), user_name(), ov, env, f);
    lemma_tag_run_stable(e.0, e.1, user_tag(), user_name(), ov, env, f3, fuel);
}

/// `resolve_text` with at most `fuel` replacements in each stage: the
/// resolved text and warnings when resolution stops within them, `None`
/// when it does not (unbounded resolution keeps replacing for ever on such
/// input).
pub fn resolve_text_within(
    input: &str,
    root: &str,
    ov: &EnvOverrides,
    env: &EnvSnapshot,
    fuel: u64,
) -> (res: Option<(String, Vec<String>)>)
    ensures
        res is Some <==> resolution_done_within(input@, root@, ov@, env@, fuel as nat),
        res is Some ==> resolution_terminates(input@, root@, ov@, env@),
        res matches Some(r) ==> (r.0@, strings_view(r.1@)) == resolution(
            input@,
            root@,
            ov@,
            env@,
        ),
{
    let ghost f = fuel as nat;
    let root_cs = chars_of(root);
    let s1 = match root_run_fuel(chars_of(input), root_cs.as_slice(), fuel) {
        Some(s) => s,
        None => {
            return None;
        },
    };
    let env_t = vec!['{', 'e', 'n', 'v', ':'];
    assert(env_t@ == env_tag());
    let empty: Vec<String> = Vec::new();
    assert(strings_view(empty@) =~= Seq::<Seq<char>>::empty());
    let env_n = "{env";
    proof {
        reveal_strlit("{env");
        assert(env_n@ =~= env_name());
    }
    let (s2, w2) = match tag_run_fuel(s1, empty, env_t.as_slice(), env_n, ov, env, fuel) {
        Some(r) => r,
        None => {
            return None;
        },
    };
    let user_t = vec!['{', 'u', 's', 'e', 'r', ':'];
    assert(user_t@ == user_tag());
    let user_n = "{user";
    proof {
        reveal_strlit("{user");
        assert(user_n@ =~= user_name());
    }
    let (s3, w3) = match tag_run_fuel(s2, w2, user_t.as_slice(), user_n, ov, env, fuel) {
        Some(r) => r,
        None => {
            return None;
        },
    };
    proof {
        lemma_done_within_terminates(input@, root@, ov@, env@, f);
    }
    Some((string_of(s3.as_slice()), w3))
}

/// The names of the placeholders that start with `tag` in `s`, from index
/// `from` on, in order, as the text stands before any is replaced.
pub open spec fn tag_names_from(s: Seq<char>, tag: Seq<char>, from: int) -> Seq<Seq<char>>
    decreases s.len() + 1 - from,
{
    if from < 0 || tag.len() == 0 {
        seq![]
    } else {
        match find_from(s, tag, from) {
            None => seq![],
            Some(start) => match find_from(s, seq!['}'], start + tag.len()) {
                None => seq![],
                Some(end) => {
                    proof {
                        lemma_find_from(s, tag, from);
                        lemma_find_from(s, seq!['}'], start + tag.len());
                    }
                    seq![s.subrange(start + tag.len(), end)] + tag_names_from(s, tag, end + 1)
                },
            },
        }
    }
}

/// The `{env:` and `{user:` placeholder names of `s`.
pub open spec fn text_names(s: Seq<char>) -> Seq<Seq<char>> {
    tag_names_from(s, env_tag(), 0) + tag_names_from(s, user_tag(), 0)
}

/// The placeholder names of each text, one text after another.
pub open spec fn texts_names(texts: Seq<Seq<char>>) -> Seq<Seq<char>>
    decreases texts.len(),
{
    if texts.len() == 0 {
        seq![]
    } else {
        texts_names(texts.drop_last()) + text_names(texts.last())
    }
}

/// `s` without repeats, each kept where it first occurs.
pub open spec fn first_occurrences(s: Seq<Seq<char>>) -> Seq<Seq<char>>
    decreases s.len(),
{
    if s.len() == 0 {
        seq![]
    } else {
        let d = first_occurrences(s.drop_last());
        if d.contains(s.last()) {
            d
        } else {
            d.push(s.last())
        }
    }
}

/// The names, among `names`, whose placeholders have no value: neither an
/// override nor the environment gives a non-empty one. These are the ones
/// to ask the user for, each once, in order.
pub open spec fn names_without_value(
    names: Seq<Seq<char>>,
    ov: Seq<(Seq<char>, Seq<char>)>,
    env: Seq<(Seq<char>, Seq<char>)>,
) -> Seq<Seq<char>> {
    first_occurrences(names.filter(|v: Seq<char>| placeholder_value(ov, env, v).len() == 0))
}

/// The placeholder names that start with `tag` in `s`.
fn tag_names_exec(s: &[char], tag: &[char]) -> (res: Vec<String>)
    requires
        tag@.len() > 0,
    ensures
        strings_view(res@) == tag_names_from(s@, tag@, 0),
{
    let mut out: Vec<String> = Vec::new();
    let mut from: usize = 0;
    assert(strings_view(out@) =~= Seq::<Seq<char>>::empty());
    loop
        invariant
            tag@.len() > 0,
            from <= s.len() + 1,
            tag_names_from(s@, tag@, 0) == strings_view(out@) + tag_names_from(
                s@,
                tag@,
                from as int,
            ),
        decreases s.len() + 1 - from,
    {
        if from > s.len() {
            assert(find_from(s@, tag@, from as int) is None);
            assert(strings_view(out@) + tag_names_from(s@, tag@, from as int) =~= strings_view(
                out@,
            ));
            return out;
        }
        match find_at_or_after(s, tag, from) {
            None => {
                assert(strings_view(out@) + tag_names_from(s@, tag@, from as int) =~= strings_view(
                    out@,
                ));
                return out;
            },
            Some(start) => {
                proof {
                    lemma_find_from(s@, tag@, from as int);
                }
                let body = start + tag.len();
                match find_char(s, '}', body) {
                    None => {
                        assert(strings_view(out@) + tag_names_from(s@, tag@, from as int)
                            =~= strings_view(out@));
                        return out;
                    },
                    Some(end) => {
                        proof {
                            lemma_find_from(s@, seq!['}'], body as int);
                        }
                        let name = sub_chars(s, body, end);
                        let ghost before = strings_view(out@);
                        out.push(string_of(name.as_slice()));
                        assert(strings_view(out@) =~= before.push(name@));
                        assert(before + tag_names_from(s@, tag@, from as int) =~= strings_view(out@)
                            + tag_names_from(s@, tag@, end + 1));
                        from = end + 1;
                    },
                }
            },
        }
    }
}

/// The `{env:` and `{user:` placeholder names of `s`.
fn text_names_exec(s: &str) -> (res: Vec<String>)
    ensures
        strings_view(res@) == text_names(s@),
{
    let cs = chars_of(s);
    let env_t = vec!['{', 'e', 'n', 'v', ':'];
    assert(env_t@ == env_tag());
    let user_t = vec!['{', 'u', 's', 'e', 'r', ':'];
    assert(user_t@ == user_tag());
    let mut a = tag_names_exec(cs.as_slice(), env_t.as_slice());
    let mut b = tag_names_exec(cs.as_slice(), user_t.as_slice());
    let ghost av = strings_view(a@);
    let ghost bv = strings_view(b@);
    a.append(&mut b);
    assert(strings_view(a@) =~= av + bv);
    a
}

/// The names, among the placeholders of `texts` (command, arguments, `env`
/// values), that have no value: the ones to ask the user for, each once.
pub fn placeholders_to_ask(texts: &Vec<String>, ov: &EnvOverrides, env: &EnvSnapshot) -> (res: Vec<
    String,
>)
    ensures
        strings_view(res@) == names_without_value(texts_names(strings_view(texts@)), ov@, env@),
{
    let ghost tv = strings_view(texts@);
    let ghost pred = |v: Seq<char>| placeholder_value(ov@, env@, v).len() == 0;
    let mut out: Vec<String> = Vec::new();
    let mut i: usize = 0;
    proof {
        reveal(Seq::filter);
    }
    assert(tv.take(0) =~= Seq::<Seq<char>>::empty());
    assert(strings_view(out@) =~= first_occurrences(texts_names(tv.take(0)).filter(pred)));
    while i < texts.len()
        invariant
            i <= texts.len(),
            tv == strings_view(texts@),
            pred == (|v: Seq<char>| placeholder_value(ov@, env@, v).len() == 0),
            strings_view(out@) == first_occurrences(texts_names(tv.take(i as int)).filter(pred)),
        decreases texts.len() - i,
    {
        proof {
            assert(tv.take(i + 1).drop_last() =~= tv.take(i as int));
            assert(tv.take(i + 1).last() == texts@[i as int]@);
        }
        let names = text_names_exec(texts[i].as_str());
        let ghost nv = strings_view(names@);
        let ghost base = texts_names(tv.take(i as int));
        let mut j: usize = 0;
        assert(base + nv.take(0) =~= base);
        while j < names.len()
            invariant
                j <= names.len(),
                nv == strings_view(names@),
                pred == (|v: Seq<char>| placeholder_value(ov@, env@, v).len() == 0),
                strings_view(out@) == first_occurrences((base + nv.take(j as int)).filter(pred)),
            decreases names.len() - j,
        {
            let ghost prev = (base + nv.take(j as int));
            assert((base + nv.take(j + 1)).drop_last() =~= prev);
            assert((base + nv.take(j + 1)).last() == nv[j as int]);
            let var = chars_of(names[j].as_str());
            let value = lookup_placeholder(ov, env, var.as_slice());
            let ghost fp = prev.filter(pred);
            let ghost x = nv[j as int];
            proof {
                reveal(Seq::filter);
                assert(var@ == x);
                assert(pred(x) == (value@.len() == 0));
                assert((base + nv.take(j + 1)).filter(pred) == (if pred(x) {
                    fp.push(x)
                } else {
                    fp
                }));
                assert(fp.push(x).drop_last() =~= fp);
                assert(fp.push(x).last() == x);
            }
            if value.len() == 0 {
                let mut seen = false;
                let mut k: usize = 0;
                let ghost sv = strings_view(out@);
                while k < out.len()
                    invariant
                        k <= out.len(),
                        j < names.len(),
                        sv == strings_view(out@),
                        x == nv[j as int],
                        x == names@[j as int]@,
                        seen <==> exists|w: int| 0 <= w < k && #[trigger] sv[w] == x,
                    decreases out.len() - k,
                {
                    if str_eq(out[k].as_str(), names[j].as_str()) {
                        assert(sv[k as int] == x);
                        seen = true;
                    }
                    k = k + 1;
                }
                assert(seen == sv.contains(x));
                if !seen {
                    let ghost ov2 = strings_view(out@);
                    out.push(names[j].clone());
                    assert(strings_view(out@) =~= ov2.push(nv[j as int]));
                }
            }
            j = j + 1;
        }
        assert(nv.take(j as int) =~= nv);
        assert(texts_names(tv.take(i + 1)) =~= base + nv);
        i = i + 1;
    }
    assert(tv.take(i as int) =~= tv);
    out
}

/// `ov` with the answer the user gave for `name` added last, so that it
/// decides the value of `name`.
pub fn with_answer(ov: EnvOverrides, name: String, answer: String) -> (res: EnvOverrides)
    ensures
        res@ == ov@.push((name@, answer@)),
        last_value(res@, name@) == Some(answer@),
{
    let mut pairs = ov.pairs;
    let ghost before = pairs_view(pairs@);
    let ghost entry = (name@, answer@);
    pairs.push((name, answer));
    assert(pairs_view(pairs@) =~= before.push(entry));
    EnvOverrides { pairs }
}

/// No text of `s` can match a pattern that starts with a character absent
/// from `s`.
proof fn lemma_absent_head(s: Seq<char>, pat: Seq<char>)
    requires
        pat.len() > 0,
        !s.contains(pat[0]),
    ensures
        find_first(s, pat) is None,
{
    lemma_find_first(s, pat);
    assert forall|i: int| !occurs_at(s, pat, i) by {
        if occurs_at(s, pat, i) {
            assert(s.subrange(i, i + pat.len())[0] == s[i]);
        }
    }
}

/// A pattern that starts with `{` and whose second character differs from
/// the one after the only `{` of `s` (at its start) does not occur in `s`.
proof fn lemma_no_tag_after_head(s: Seq<char>, pat: Seq<char>)
    requires
        pat.len() >= 2,
        forall|i: int| 0 < i < s.len() ==> s[i] != pat[0],
        s.len() >= 2 ==> s[1] != pat[1],
    ensures
        find_first(s, pat) is None,
{
    lemma_find_first(s, pat);
    assert forall|i: int| !occurs_at(s, pat, i) by {
        if occurs_at(s, pat, i) {
            assert(s.subrange(i, i + pat.len())[0] == s[i]);
            assert(s.subrange(i, i + pat.len())[1] == s[i + 1]);
        }
    }
}

/// Where no placeholder with `tag` is left, resolving `tag` ends at once
/// and changes nothing.
proof fn lemma_tag_absent(
    s: Seq<char>,
    w: Seq<Seq<char>>,
    tag: Seq<char>,
    name: Seq<char>,
    ov: Seq<(Seq<char>, Seq<char>)>,
    env: Seq<(Seq<char>, Seq<char>)>,
)
    requires
        find_first(s, tag) is None,
    ensures
        tag_terminates(s, w, tag, name, ov, env),
        expand_tag(s, w, tag, name, ov, env) == (s, w),
{
    assert(tag_done_within(s, w, tag, name, ov, env, 0));
}

/// `tag` + `k` + `}` starts with `tag`.
proof fn lemma_head_found(tag: Seq<char>, k: Seq<char>)
    requires
        tag.len() > 0,
    ensures
        find_first(tag + k + seq!['}'], tag) == Some(0int),
{
    let s = tag + k + seq!['}'];
    assert(s.subrange(0, tag.len() as int) =~= tag);
    assert(occurs_at(s, tag, 0));
}

/// In `tag` + `k` + `}`, with no `}` in `k`, the first `}` after the tag
/// closes it, and the name between is `k`.
proof fn lemma_close_found(tag: Seq<char>, k: Seq<char>)
    requires
        !k.contains('}'),
    ensures
        find_from(tag + k + seq!['}'], seq!['}'], tag.len() as int) == Some(tag.len() + k.len() as int),
        (tag + k + seq!['}']).subrange(tag.len() as int, tag.len() + k.len() as int) == k,
{
    let s = tag + k + seq!['}'];
    let n: int = tag.len() as int;
    let end: int = n + k.len();
    lemma_occurs_single(s, '}', end);
    assert(s[end] == '}');
    lemma_find_from(s, seq!['}'], n);
    match find_from(s, seq!['}'], n) {
        None => {
            assert(occurs_at(s, seq!['}'], end));
        },
        Some(i) => {
            if i < end {
                lemma_occurs_single(s, '}', i);
                assert(s[i] == k[i - n]);
                assert(k.contains('}'));
            } else if i > end {
                assert(!occurs_at(s, seq!['}'], end));
            }
        },
    }
    assert(s.subrange(n, end) =~= k);
}

/// One step on `tag` + `k` + `}` replaces the placeholder by its value `v`.
proof fn lemma_single_step(
    tag: Seq<char>,
    name: Seq<char>,
    k: Seq<char>,
    v: Seq<char>,
    ov: Seq<(Seq<char>, Seq<char>)>,
    env: Seq<(Seq<char>, Seq<char>)>,
)
    requires
        tag.len() > 0,
        !k.contains('}'),
        v.len() > 0,
        placeholder_value(ov, env, k) == v,
    ensures
        tag_step(tag + k + seq!['}'], seq![], tag, name, ov, env) == (
            false,
            v,
            Seq::<Seq<char>>::empty(),
        ),
{
    let s = tag + k + seq!['}'];
    let end: int = tag.len() + k.len() as int;
    lemma_head_found(tag, k);
    lemma_close_found(tag, k);
    assert(s.take(0) + v + s.skip(end + 1) =~= v);
}

/// A single placeholder `tag` + `k` + `}` whose name has an override `v`
/// (non-empty, with no `{`) resolves to `v`, with no warning.
proof fn lemma_tag_replaced(
    tag: Seq<char>,
    name: Seq<char>,
    k: Seq<char>,
    v: Seq<char>,
    ov: Seq<(Seq<char>, Seq<char>)>,
    env: Seq<(Seq<char>, Seq<char>)>,
)
    requires
        tag.len() > 0,
        tag[0] == '{',
        !k.contains('}'),
        v.len() > 0,
        !v.contains('{'),
        placeholder_value(ov, env, k) == v,
    ensures
        tag_terminates(tag + k + seq!['}'], seq![], tag, name, ov, env),
        expand_tag(tag + k + seq!['}'], seq![], tag, name, ov, env) == (v, Seq::<Seq<char>>::empty()),
{
    let s = tag + k + seq!['}'];
    let w0: Seq<Seq<char>> = seq![];
    lemma_single_step(tag, name, k, v, ov, env);
    lemma_absent_head(v, tag);
    assert(tag_step(v, w0, tag, name, ov, env) == (true, v, w0));
    reveal_with_fuel(tag_done_within, 2);
    reveal_with_fuel(tag_run, 2);
    assert(tag_done_within(s, w0, tag, name, ov, env, 1));
    assert(tag_run(s, w0, tag, name, ov, env, 1) == (v, w0));
    let f = choose|f: nat| tag_done_within(s, w0, tag, name, ov, env, f);
    lemma_tag_run_stable(s, w0, tag, name, ov, env, f, 1);
}

/// A `{env:K}` placeholder, and likewise a `{user:K}` placeholder, resolves
/// to the last `--env` value (or answer) given for `K`, with no warning,
/// whatever the environment holds.
pub proof fn law_placeholder_takes_override(
    user: bool,
    k: Seq<char>,
    v: Seq<char>,
    root: Seq<char>,
    ov: Seq<(Seq<char>, Seq<char>)>,
    env: Seq<(Seq<char>, Seq<char>)>,
)
    requires
        !k.contains('{'),
        !k.contains('}'),
        v.len() > 0,
        !v.contains('{'),
        last_value(ov, k) == Some(v),
    ensures
        resolution_terminates(
            (if user {
                user_tag()
            } else {
                env_tag()
            }) + k + seq!['}'],
            root,
            ov,
            env,
        ),
        resolution(
            (if user {
                user_tag()
            } else {
                env_tag()
            }) + k + seq!['}'],
            root,
            ov,
            env,
        ) == (v, Seq::<Seq<char>>::empty()),
{
    let tag = if user {
        user_tag()
    } else {
        env_tag()
    };
    let s = tag + k + seq!['}'];
    let w0: Seq<Seq<char>> = seq![];
    assert forall|i: int| 0 < i < s.len() implies s[i] != '{' by {
        if i < tag.len() {
        } else if i < tag.len() + k.len() {
            assert(s[i] == k[i - tag.len()]);
        }
    }
    lemma_no_tag_after_head(s, root_tag());
    assert(root_done_within(s, root, 0));
    assert(expand_root(s, root) == s);
    if user {
        lemma_no_tag_after_head(s, env_tag());
        lemma_tag_absent(s, w0, env_tag(), env_name(), ov, env);
        assert(after_env(s, root, ov, env) == (s, w0));
        lemma_tag_replaced(user_tag(), user_name(), k, v, ov, env);
        assert(s == user_tag() + k + seq!['}']);
    } else {
        lemma_tag_replaced(env_tag(), env_name(), k, v, ov, env);
        assert(s == env_tag() + k + seq!['}']);
        assert(after_env(s, root, ov, env) == (v, w0));
        lemma_absent_head(v, user_tag());
        lemma_tag_absent(v, w0, user_tag(), user_name(), ov, env);
    }
}

/// Text without any `{` is left as it is, with no warning: there is no
/// placeholder to resolve.
pub proof fn law_text_without_braces_is_unchanged(
    input: Seq<char>,
    root: Seq<char>,
    ov: Seq<(Seq<char>, Seq<char>)>,
    env: Seq<(Seq<char>, Seq<char>)>,
)
    requires
        !input.contains('{'),
    ensures
        resolution_terminates(input, root, ov, env),
        resolution(input, root, ov, env) == (input, Seq::<Seq<char>>::empty()),
{
    lemma_absent_head(input, root_tag());
    lemma_absent_head(input, env_tag());
    lemma_absent_head(input, user_tag());
    assert(root_done_within(input, root, 0));
    let f = choose|f: nat| root_done_within(input, root, f);
    assert(expand_root(input, root) == input);
    let w: Seq<Seq<char>> = seq![];
    assert(tag_done_within(input, w, env_tag(), env_name(), ov, env, 0));
    assert(after_env(input, root, ov, env) == (input, w));
    assert(tag_done_within(input, w, user_tag(), user_name(), ov, env, 0));
}

/// Once `{root}` expansion ends, no `{root}` is left in the text.
pub proof fn law_root_expansion_leaves_no_root(s: Seq<char>, root: Seq<char>)
    requires
        root_terminates(s, root),
    ensures
        find_first(expand_root(s, root), root_tag()) is None,
{
    let f = choose|f: nat| root_done_within(s, root, f);
    lemma_root_run_done(s, root, f);
}

proof fn lemma_root_run_done(s: Seq<char>, root: Seq<char>, f: nat)
    requires
        root_done_within(s, root, f),
    ensures
        find_first(root_run(s, root, f), root_tag()) is None,
    decreases f,
{
    if find_first(s, root_tag()) is None {
    } else {
        lemma_root_run_done(root_step(s, root), root, (f - 1) as nat);
    }
}

/// A `KEY=VALUE` item given after others decides the value of `KEY`,
/// whatever came before it.
pub proof fn law_last_env_override_wins(items: Seq<Seq<char>>, key: Seq<char>, value: Seq<char>)
    requires
        !key.contains('='),
    ensures
        overrides_map(items.push(key + seq!['='] + value)).contains_key(key),
        overrides_map(items.push(key + seq!['='] + value))[key] == value,
{
    let item = key + seq!['='] + value;
    let all = items.push(item);
    assert(all.drop_last() == items);
    assert(all.last() == item);
    lemma_find_first(item, seq!['=']);
    assert(occurs_at(item, seq!['='], key.len() as int)) by {
        assert(item.subrange(key.len() as int, key.len() + 1int) =~= seq!['=']);
    }
    assert forall|j: int| 0 <= j < key.len() implies !occurs_at(item, seq!['='], j) by {
        if occurs_at(item, seq!['='], j) {
            assert(item.subrange(j, j + 1)[0] == item[j]);
            assert(item[j] == key[j]);
        }
    }
    assert(find_first(item, seq!['=']) == Some(key.len() as int));
    assert(item.take(key.len() as int) =~= key);
    assert(item.skip(key.len() + 1int) =~= value);
    assert(last_value(override_pairs(all), key) == Some(value));
}

} // verus!
