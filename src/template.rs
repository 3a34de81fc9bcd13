use vstd::prelude::*;

use crate::vars::Vars;

verus! {

/// ASCII letters and digits: the characters that make up a variable name.
pub open spec fn is_name_char(c: char) -> bool {
    ('a' <= c && c <= 'z') || ('A' <= c && c <= 'Z') || ('0' <= c && c <= '9')
}

/// Length of the run of name characters in `s` that starts at `j`.
pub open spec fn name_len(s: Seq<char>, j: int) -> nat
    decreases s.len() - j,
{
    if 0 <= j < s.len() && is_name_char(s[j]) {
        1 + name_len(s, j + 1)
    } else {
        0
    }
}

/// A run of name characters never reaches past the end of `s`.
pub proof fn lemma_name_len_bound(s: Seq<char>, j: int)
    requires
        0 <= j <= s.len(),
    ensures
        j + name_len(s, j) <= s.len(),
    decreases s.len() - j,
{
    if j < s.len() && is_name_char(s[j]) {
        lemma_name_len_bound(s, j + 1);
    }
}

/// The text written in place of a name that the mapping does not hold.
pub open spec fn none_text() -> Seq<char> {
    seq!['N', 'o', 'n', 'e']
}

/// The text written in place of `$name`.
pub open spec fn lookup_text<V>(
    vars: Map<Seq<char>, V>,
    name: Seq<char>,
    text: spec_fn(V) -> Seq<char>,
) -> Seq<char> {
    if vars.contains_key(name) {
        text(vars[name])
    } else {
        none_text()
    }
}

/// The result of scanning `s` left to right from position `i`: `$$` becomes `$`,
/// `$` followed by the longest run of name characters becomes the text of that
/// name, and every other character is copied.
pub open spec fn expand_from<V>(
    s: Seq<char>,
    i: int,
    vars: Map<Seq<char>, V>,
    text: spec_fn(V) -> Seq<char>,
) -> Seq<char>
    decreases s.len() - i,
{
    if i < 0 || i >= s.len() {
        Seq::empty()
    } else if s[i] == '$' && i + 1 < s.len() && s[i + 1] == '$' {
        seq!['$'] + expand_from(s, i + 2, vars, text)
    } else if s[i] == '$' && i + 1 < s.len() && is_name_char(s[i + 1]) {
        let end = i + 1 + name_len(s, i + 1);
        proof {
            lemma_name_len_bound(s, i + 1);
        }
        lookup_text(vars, s.subrange(i + 1, end), text) + expand_from(s, end, vars, text)
    } else {
        seq![s[i]] + expand_from(s, i + 1, vars, text)
    }
}

/// The substitution of `vars` into the whole of `s`.
pub open spec fn expand<V>(
    s: Seq<char>,
    vars: Map<Seq<char>, V>,
    text: spec_fn(V) -> Seq<char>,
) -> Seq<char> {
    expand_from(s, 0, vars, text)
}

/// A run of name characters is unaffected by text placed before it.
proof fn lemma_name_len_shift(p: Seq<char>, t: Seq<char>, j: int)
    requires
        0 <= j <= t.len(),
    ensures
        name_len(p + t, p.len() + j) == name_len(t, j),
    decreases t.len() - j,
{
    if j < t.len() {
        assert((p + t)[p.len() + j] == t[j]);
        if is_name_char(t[j]) {
            lemma_name_len_shift(p, t, j + 1);
        }
    }
}

/// A run of `n` name characters that is not followed by another has length `n`.
proof fn lemma_name_len_exact(s: Seq<char>, j: int, n: int)
    requires
        0 <= j,
        0 <= n,
        j + n <= s.len(),
        forall|k: int| j <= k < j + n ==> is_name_char(#[trigger] s[k]),
        j + n == s.len() || !is_name_char(s[j + n]),
    ensures
        name_len(s, j) == n,
    decreases n,
{
    if n > 0 {
        lemma_name_len_exact(s, j + 1, n - 1);
    }
}

/// Scanning is unaffected by text placed before the starting position.
proof fn lemma_expand_shift<V>(
    p: Seq<char>,
    t: Seq<char>,
    j: int,
    vars: Map<Seq<char>, V>,
    text: spec_fn(V) -> Seq<char>,
)
    requires
        0 <= j,
    ensures
        expand_from(p + t, p.len() + j, vars, text) == expand_from(t, j, vars, text),
    decreases t.len() - j,
{
    let s = p + t;
    let i = p.len() + j;
    if j < t.len() {
        assert(s[i] == t[j]);
        if j + 1 < t.len() {
            assert(s[i + 1] == t[j + 1]);
        }
        if t[j] == '$' && j + 1 < t.len() && t[j + 1] == '$' {
            lemma_expand_shift(p, t, j + 2, vars, text);
        } else if t[j] == '$' && j + 1 < t.len() && is_name_char(t[j + 1]) {
            lemma_name_len_shift(p, t, j + 1);
            lemma_name_len_bound(t, j + 1);
            let e = j + 1 + name_len(t, j + 1);
            assert(s.subrange(i + 1, p.len() + e) =~= t.subrange(j + 1, e));
            lemma_expand_shift(p, t, e, vars, text);
        } else {
            lemma_expand_shift(p, t, j + 1, vars, text);
        }
    }
}

/// Text without `$` is copied through, and what follows it is scanned as if it
/// stood alone.
pub proof fn lemma_literal_prefix<V>(
    pre: Seq<char>,
    rest: Seq<char>,
    vars: Map<Seq<char>, V>,
    text: spec_fn(V) -> Seq<char>,
)
    requires
        !pre.contains('$'),
    ensures
        expand(pre + rest, vars, text) == pre + expand(rest, vars, text),
    decreases pre.len(),
{
    if pre.len() == 0 {
        assert(pre + rest =~= rest);
    } else {
        let c = pre[0];
        let tail = pre.subrange(1, pre.len() as int);
        assert(c != '$') by {
            assert(pre[0] == c);
        }
        assert(!tail.contains('$')) by {
            if tail.contains('$') {
                let k = choose|k: int| 0 <= k < tail.len() && tail[k] == '$';
                assert(pre[k + 1] == '$');
            }
        }
        assert(pre + rest =~= seq![c] + (tail + rest));
        lemma_expand_shift(seq![c], tail + rest, 0, vars, text);
        lemma_literal_prefix(tail, rest, vars, text);
        assert(pre =~= seq![c] + tail);
    }
}

/// A base without `$` comes back unchanged, whatever the mapping.
pub proof fn lemma_no_placeholder_identity<V>(
    base: Seq<char>,
    vars: Map<Seq<char>, V>,
    text: spec_fn(V) -> Seq<char>,
)
    requires
        !base.contains('$'),
    ensures
        expand(base, vars, text) == base,
{
    lemma_literal_prefix(base, Seq::empty(), vars, text);
    assert(base + Seq::<char>::empty() =~= base);
}

/// `$$` becomes one `$`, and the text after it is scanned afresh: the `$` that
/// was written never starts a placeholder.
pub proof fn lemma_escape<V>(
    pre: Seq<char>,
    post: Seq<char>,
    vars: Map<Seq<char>, V>,
    text: spec_fn(V) -> Seq<char>,
)
    requires
        !pre.contains('$'),
    ensures
        expand(pre + seq!['$', '$'] + post, vars, text) == pre + seq!['$'] + expand(post, vars, text),
{
    let tok = seq!['$', '$'];
    assert(pre + tok + post =~= pre + (tok + post));
    lemma_literal_prefix(pre, tok + post, vars, text);
    assert((tok + post)[0] == '$' && (tok + post)[1] == '$');
    lemma_expand_shift(tok, post, 0, vars, text);
    assert(pre + (seq!['$'] + expand(post, vars, text)) =~= pre + seq!['$'] + expand(post, vars, text));
}

/// `$name`, not followed by another name character, becomes the text for `name`.
proof fn lemma_placeholder<V>(
    pre: Seq<char>,
    name: Seq<char>,
    post: Seq<char>,
    vars: Map<Seq<char>, V>,
    text: spec_fn(V) -> Seq<char>,
)
    requires
        !pre.contains('$'),
        name.len() > 0,
        forall|k: int| 0 <= k < name.len() ==> is_name_char(#[trigger] name[k]),
        post.len() == 0 || !is_name_char(post[0]),
    ensures
        expand(pre + seq!['$'] + name + post, vars, text) == pre + lookup_text(vars, name, text)
            + expand(post, vars, text),
{
    let tok = seq!['$'] + name;
    let t = tok + post;
    assert(pre + seq!['$'] + name + post =~= pre + t);
    lemma_literal_prefix(pre, t, vars, text);
    assert(t[0] == '$');
    assert(t[1] == name[0]);
    assert forall|k: int| 1 <= k < 1 + name.len() implies is_name_char(#[trigger] t[k]) by {
        assert(t[k] == name[k - 1]);
    }
    if post.len() > 0 {
        assert(t[1 + name.len() as int] == post[0]);
    }
    lemma_name_len_exact(t, 1, name.len() as int);
    assert(t.subrange(1, 1 + name.len() as int) =~= name);
    lemma_expand_shift(tok, post, 0, vars, text);
    assert(pre + (lookup_text(vars, name, text) + expand(post, vars, text)) =~= pre + lookup_text(
        vars,
        name,
        text,
    ) + expand(post, vars, text));
}

/// `$name` for a name that the mapping holds becomes exactly the text of its
/// value; the text around it is handled as if the placeholder were not there.
pub proof fn lemma_present_name<V>(
    pre: Seq<char>,
    name: Seq<char>,
    post: Seq<char>,
    vars: Map<Seq<char>, V>,
    text: spec_fn(V) -> Seq<char>,
)
    requires
        !pre.contains('$'),
        name.len() > 0,
        forall|k: int| 0 <= k < name.len() ==> is_name_char(#[trigger] name[k]),
        post.len() == 0 || !is_name_char(post[0]),
        vars.contains_key(name),
    ensures
        expand(pre + seq!['$'] + name + post, vars, text) == pre + text(vars[name]) + expand(
            post,
            vars,
            text,
        ),
{
    lemma_placeholder(pre, name, post, vars, text);
}

/// `$name` for a name that the mapping does not hold becomes exactly `None`.
pub proof fn lemma_absent_name<V>(
    pre: Seq<char>,
    name: Seq<char>,
    post: Seq<char>,
    vars: Map<Seq<char>, V>,
    text: spec_fn(V) -> Seq<char>,
)
    requires
        !pre.contains('$'),
        name.len() > 0,
        forall|k: int| 0 <= k < name.len() ==> is_name_char(#[trigger] name[k]),
        post.len() == 0 || !is_name_char(post[0]),
        !vars.contains_key(name),
    ensures
        expand(pre + seq!['$'] + name + post, vars, text) == pre + none_text() + expand(
            post,
            vars,
            text,
        ),
{
    lemma_placeholder(pre, name, post, vars, text);
}

/// `convert` gives the same text each time it is called on the same value.
pub open spec fn is_pure<V, F: Fn(&V) -> String>(convert: F) -> bool {
    forall|v: &V, a: String, b: String|
        #[trigger] convert.ensures((v,), a) && #[trigger] convert.ensures((v,), b) ==> a@ == b@
}

/// The text that `convert` gives for `v`.
pub open spec fn converted<V, F: Fn(&V) -> String>(convert: F, v: V) -> Seq<char> {
    (choose|s: String| convert.ensures((&v,), s))@
}

fn is_name_char_exec(c: char) -> (r: bool)
    ensures
        r == is_name_char(c),
{
    ('a' <= c && c <= 'z') || ('A' <= c && c <= 'Z') || ('0' <= c && c <= '9')
}

fn chars_of(s: &str) -> (r: Vec<char>)
    ensures
        r@ == s@,
{
    let mut r: Vec<char> = Vec::new();
    for c in it: s.chars()
        invariant
            r@ == it.seq().take(it.index() as int),
            it.seq() == s@,
    {
        r.push(c);
    }
    r
}

/// Relies on String::push: appends one character to the end of the string.
#[verifier::external_body]
fn push_char(s: &mut String, c: char)
    ensures
        final(s)@ == old(s)@.push(c),
{
    s.push(c);
}

/// End of the run of name characters that starts at `j`.
fn name_end(s: &Vec<char>, j: usize) -> (e: usize)
    requires
        j <= s.len(),
    ensures
        e == j + name_len(s@, j as int),
        e <= s.len(),
{
    let mut k: usize = j;
    while k < s.len() && is_name_char_exec(s[k])
        invariant
            j <= k <= s.len(),
            name_len(s@, j as int) == (k - j) + name_len(s@, k as int),
        decreases s.len() - k,
    {
        k = k + 1;
    }
    k
}

/// Copies `s[from..to]` into a new string.
fn string_of(s: &Vec<char>, from: usize, to: usize) -> (r: String)
    requires
        from <= to <= s.len(),
    ensures
        r@ == s@.subrange(from as int, to as int),
{
    let mut r = String::new();
    let mut k: usize = from;
    while k < to
        invariant
            from <= k <= to <= s.len(),
            r@ == s@.subrange(from as int, k as int),
        decreases to - k,
    {
        push_char(&mut r, s[k]);
        assert(r@ =~= s@.subrange(from as int, k + 1));
        k = k + 1;
    }
    r
}

/// Replaces each `$name` in `base` with `convert` of the value that `vars` holds
/// under `name`, or with `None` where it holds none, and each `$$` with `$`.
/// Text that a substitution writes is not scanned again. `convert` must give
/// the same text each time it sees the same value.
pub fn apply<V, F: Fn(&V) -> String>(base: &str, vars: &Vars<V>, convert: F) -> (r: String)
    requires
        vars.wf(),
        forall|v: &V| #[trigger] convert.requires((v,)),
        is_pure(convert),
    ensures
        r@ == expand(base@, vars@, (|v: V| converted(convert, v))),
{
    let ghost text = |v: V| converted(convert, v);
    let s = chars_of(base);
    let mut out = String::new();
    let mut i: usize = 0;
    while i < s.len()
        invariant
            i <= s.len(),
            s@ == base@,
            vars.wf(),
            forall|v: &V| #[trigger] convert.requires((v,)),
            is_pure(convert),
            text == (|v: V| converted(convert, v)),
            out@ + expand_from(s@, i as int, vars@, text) == expand(s@, vars@, text),
        decreases s.len() - i,
    {
        let ghost before = out@;
        let ghost at = i as int;
        if s[i] == '$' && i + 1 < s.len() && s[i + 1] == '$' {
            push_char(&mut out, '$');
            i = i + 2;
            assert(expand_from(s@, at, vars@, text) == seq!['$'] + expand_from(s@, i as int, vars@, text));
            assert(out@ == before + seq!['$']);
        } else if s[i] == '$' && i + 1 < s.len() && is_name_char_exec(s[i + 1]) {
            let end = name_end(&s, i + 1);
            let name = string_of(&s, i + 1, end);
            match vars.get(&name) {
                Some(v) => {
                    let t = convert(v);
                    proof {
                        // `convert` is pure, so `t` is the text that `converted` picks.
                        let w = choose|q: String| convert.ensures((v,), q);
                        assert(t@ == w@);
                    }
                    out.append(t.as_str());
                },
                None => {
                    out.append("None");
                    proof {
                        reveal_strlit("None");
                        assert("None"@ =~= none_text());
                    }
                },
            }
            i = end;
            assert(out@ == before + lookup_text(vars@, s@.subrange(at + 1, i as int), text));
            assert(expand_from(s@, at, vars@, text) == lookup_text(vars@, s@.subrange(at + 1, i as int), text)
                + expand_from(s@, i as int, vars@, text));
        } else {
            push_char(&mut out, s[i]);
            i = i + 1;
            assert(expand_from(s@, at, vars@, text) == seq![s@[at]] + expand_from(s@, i as int, vars@, text));
        }
        assert(out@ + expand_from(s@, i as int, vars@, text) =~= before + expand_from(
            s@,
            at,
            vars@,
            text,
        ));
    }
    out
}

} // verus!
