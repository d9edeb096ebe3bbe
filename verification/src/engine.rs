//! The renderer.
//!
//! Rendering has two phases. The start phase resolves a token that begins
//! the template, if one does: its name is looked up and the token replaced,
//! or the name reported as missing. The interior phase then repeatedly
//! resolves the leftmost live interior token of the working text until none
//! remains, reporting the first name the mapping does not cover. The working
//! text is rescanned whole after every replacement, so replacement text that
//! happens to form a token shape next to a non-brace character is picked up
//! by a later pass; with self-reproducing replacement text the process never
//! reaches a fixpoint, and such inputs are excluded by `render_halts`.

use vstd::prelude::*;

use crate::tokens::{first_live_from, live_at, token_at, token_end, token_name, word_run_len};
use crate::tokens::{find_first_live, find_start_token};
use crate::tokens::{lemma_first_live_from_live, lemma_no_live_none};
use crate::values::{values_brace_free, ValueMap};

verus! {

/// The text with the token beginning at position `i` replaced by `v`:
/// everything before the opening brace, then `v`, then everything after the
/// closing brace.
pub open spec fn splice_at(s: Seq<char>, i: int, v: Seq<char>) -> Seq<char> {
    s.take(i) + v + s.skip(token_end(s, i))
}

/// The interior phase, given `fuel` replacements to work with: `None` when
/// `fuel` ran out before a fixpoint was reached, otherwise the rendered text
/// or the name of the first live token the mapping does not cover.
pub open spec fn loop_result(
    s: Seq<char>,
    m: Map<Seq<char>, Seq<char>>,
    fuel: nat,
) -> Option<Result<Seq<char>, Seq<char>>>
    decreases fuel,
{
    match first_live_from(s, 1) {
        None => Some(Ok(s)),
        Some(i) => {
            let name = token_name(s, i);
            if !m.contains_key(name) {
                Some(Err(name))
            } else if fuel == 0 {
                None
            } else {
                loop_result(splice_at(s, i, m[name]), m, (fuel - 1) as nat)
            }
        },
    }
}

/// The start phase: the working text after resolving a token that begins the
/// template, or the name of that token when the mapping does not cover it.
pub open spec fn start_phase(
    t: Seq<char>,
    m: Map<Seq<char>, Seq<char>>,
) -> Result<Seq<char>, Seq<char>> {
    if token_at(t, 0) {
        if m.contains_key(token_name(t, 0)) {
            Ok(splice_at(t, 0, m[token_name(t, 0)]))
        } else {
            Err(token_name(t, 0))
        }
    } else {
        Ok(t)
    }
}

/// Both phases, given `fuel` interior replacements to work with.
pub open spec fn render_result(
    t: Seq<char>,
    m: Map<Seq<char>, Seq<char>>,
    fuel: nat,
) -> Option<Result<Seq<char>, Seq<char>>> {
    match start_phase(t, m) {
        Ok(s) => loop_result(s, m, fuel),
        Err(name) => Some(Err(name)),
    }
}

/// Rendering reaches a fixpoint or an error within some number of
/// replacements. This excludes only templates whose replacement text keeps
/// reproducing a live token forever.
pub open spec fn render_halts(t: Seq<char>, m: Map<Seq<char>, Seq<char>>) -> bool {
    exists|fuel: nat| (#[trigger] render_result(t, m, fuel)) is Some
}

/// What rendering returns: the template with every live token replaced, or
/// the name of the first token the mapping does not cover.
pub open spec fn spec_render(
    t: Seq<char>,
    m: Map<Seq<char>, Seq<char>>,
) -> Result<Seq<char>, Seq<char>>
    recommends
        render_halts(t, m),
{
    let fuel = choose|fuel: nat| (#[trigger] render_result(t, m, fuel)) is Some;
    match render_result(t, m, fuel) {
        Some(res) => res,
        None => Err(Seq::empty()),
    }
}

/// Once the interior phase has enough fuel to finish, more fuel does not
/// change its result.
pub proof fn lemma_loop_result_monotonic(
    s: Seq<char>,
    m: Map<Seq<char>, Seq<char>>,
    f1: nat,
    f2: nat,
)
    requires
        f1 <= f2,
        loop_result(s, m, f1) is Some,
    ensures
        loop_result(s, m, f2) == loop_result(s, m, f1),
    decreases f1,
{
    match first_live_from(s, 1) {
        None => {},
        Some(i) => {
            let name = token_name(s, i);
            if m.contains_key(name) {
                lemma_loop_result_monotonic(splice_at(s, i, m[name]), m, (f1 - 1) as nat, (f2
                    - 1) as nat);
            }
        },
    }
}

/// Law: rendering is deterministic. Any two fuel amounts that let the
/// process finish yield the same result, so the outcome depends on the
/// template and the mapping alone.
pub proof fn lemma_render_deterministic(
    t: Seq<char>,
    m: Map<Seq<char>, Seq<char>>,
    f1: nat,
    f2: nat,
)
    requires
        render_result(t, m, f1) is Some,
        render_result(t, m, f2) is Some,
    ensures
        render_result(t, m, f1) == render_result(t, m, f2),
{
    match start_phase(t, m) {
        Ok(s) => {
            if f1 <= f2 {
                lemma_loop_result_monotonic(s, m, f1, f2);
            } else {
                lemma_loop_result_monotonic(s, m, f2, f1);
            }
        },
        Err(name) => {},
    }
}

/// Any fuel amount that lets the process finish exhibits `spec_render`.
pub proof fn lemma_spec_render_agrees(t: Seq<char>, m: Map<Seq<char>, Seq<char>>, f: nat)
    requires
        render_result(t, m, f) is Some,
    ensures
        render_halts(t, m),
        render_result(t, m, f) == Some(spec_render(t, m)),
{
    assert(render_halts(t, m));
    let fc = choose|fuel: nat| (#[trigger] render_result(t, m, fuel)) is Some;
    lemma_render_deterministic(t, m, f, fc);
}

/// Law: a template without a start token and without a live interior token
/// renders to itself, whatever the values mapping holds.
pub proof fn lemma_no_live_tokens_unchanged(t: Seq<char>, m: Map<Seq<char>, Seq<char>>)
    requires
        !token_at(t, 0),
        first_live_from(t, 1) is None,
    ensures
        render_halts(t, m),
        spec_render(t, m) == Ok::<Seq<char>, Seq<char>>(t),
{
    assert(loop_result(t, m, 0) == Some(Ok::<Seq<char>, Seq<char>>(t)));
    lemma_spec_render_agrees(t, m, 0);
}

/// Law: the empty template renders to empty output, whatever the values
/// mapping holds.
pub proof fn lemma_empty_template(m: Map<Seq<char>, Seq<char>>)
    ensures
        render_halts(Seq::<char>::empty(), m),
        spec_render(Seq::<char>::empty(), m) == Ok::<Seq<char>, Seq<char>>(Seq::<char>::empty()),
{
    assert(!token_at(Seq::<char>::empty(), 0));
    assert(first_live_from(Seq::<char>::empty(), 1) is None);
    lemma_no_live_tokens_unchanged(Seq::<char>::empty(), m);
}

/// Law: a template that contains no token at all renders to itself, whatever
/// the values mapping holds.
pub proof fn lemma_token_free_unchanged(t: Seq<char>, m: Map<Seq<char>, Seq<char>>)
    requires
        forall|i: int| !(#[trigger] token_at(t, i)),
    ensures
        render_halts(t, m),
        spec_render(t, m) == Ok::<Seq<char>, Seq<char>>(t),
{
    assert(!token_at(t, 0));
    assert forall|j: int| 1 <= j implies !live_at(t, j) by {
        assert(!token_at(t, j));
    }
    lemma_no_live_none(t);
    lemma_no_live_tokens_unchanged(t, m);
}

/// Law: a template in which every token is escaped — each one preceded by an
/// opening brace — renders to itself, whatever the values mapping holds.
pub proof fn lemma_escaped_only_unchanged(t: Seq<char>, m: Map<Seq<char>, Seq<char>>)
    requires
        forall|i: int| #[trigger] token_at(t, i) ==> 1 <= i && t[i - 1] == '{',
    ensures
        render_halts(t, m),
        spec_render(t, m) == Ok::<Seq<char>, Seq<char>>(t),
{
    assert(!token_at(t, 0));
    assert forall|j: int| 1 <= j implies !live_at(t, j) by {
        if token_at(t, j) {
            assert(t[j - 1] == '{');
        }
    }
    lemma_no_live_none(t);
    lemma_no_live_tokens_unchanged(t, m);
}

proof fn lemma_loop_ok_no_live(s: Seq<char>, m: Map<Seq<char>, Seq<char>>, f: nat, o: Seq<char>)
    requires
        loop_result(s, m, f) == Some(Ok::<Seq<char>, Seq<char>>(o)),
    ensures
        first_live_from(o, 1) is None,
    decreases f,
{
    match first_live_from(s, 1) {
        None => {},
        Some(i) => {
            let name = token_name(s, i);
            lemma_loop_ok_no_live(splice_at(s, i, m[name]), m, (f - 1) as nat, o);
        },
    }
}

/// Law: a successful render leaves no live interior token in its output;
/// every one was either replaced, or its absence from the mapping would have
/// been reported instead.
pub proof fn lemma_success_leaves_no_live_token(t: Seq<char>, m: Map<Seq<char>, Seq<char>>)
    requires
        render_halts(t, m),
        spec_render(t, m) is Ok,
    ensures
        first_live_from(spec_render(t, m)->Ok_0, 1) is None,
{
    let f = choose|fuel: nat| (#[trigger] render_result(t, m, fuel)) is Some;
    lemma_spec_render_agrees(t, m, f);
    match start_phase(t, m) {
        Ok(s) => {
            lemma_loop_ok_no_live(s, m, f, spec_render(t, m)->Ok_0);
        },
        Err(name) => {},
    }
}

/// Law: rendering a successful output again, with the same values mapping,
/// returns it unchanged — provided no token begins the output, since an
/// inserted value can place a fresh token shape at the very start, where a
/// second render's start phase would resolve it.
pub proof fn lemma_rerender_fixed(t: Seq<char>, m: Map<Seq<char>, Seq<char>>, o: Seq<char>)
    requires
        render_halts(t, m),
        spec_render(t, m) == Ok::<Seq<char>, Seq<char>>(o),
        !token_at(o, 0),
    ensures
        render_halts(o, m),
        spec_render(o, m) == Ok::<Seq<char>, Seq<char>>(o),
{
    lemma_success_leaves_no_live_token(t, m);
    lemma_no_live_tokens_unchanged(o, m);
}

/// Law: the text substituted for a live token is the mapping's entry for the
/// token's name and nothing else: two live tokens with one name, wherever
/// each stands and in whatever text, receive the same replacement text.
pub proof fn lemma_same_name_same_value(
    s1: Seq<char>,
    i1: int,
    s2: Seq<char>,
    i2: int,
    m: Map<Seq<char>, Seq<char>>,
)
    requires
        live_at(s1, i1),
        live_at(s2, i2),
        token_name(s1, i1) == token_name(s2, i2),
        m.contains_key(token_name(s1, i1)),
    ensures
        ({
            let v = m[token_name(s1, i1)];
            &&& splice_at(s1, i1, v).subrange(i1, i1 + v.len()) == v
            &&& splice_at(s2, i2, v).subrange(i2, i2 + v.len()) == splice_at(
                s1,
                i1,
                v,
            ).subrange(i1, i1 + v.len())
        }),
{
    let v = m[token_name(s1, i1)];
    assert(splice_at(s1, i1, v).subrange(i1, i1 + v.len()) =~= v);
    assert(splice_at(s2, i2, v).subrange(i2, i2 + v.len()) =~= v);
}

/// Whether the interior phase finishes from `s` with some amount of fuel.
pub open spec fn loop_halts(s: Seq<char>, m: Map<Seq<char>, Seq<char>>) -> bool {
    exists|fuel: nat| (#[trigger] loop_result(s, m, fuel)) is Some
}

/// The least fuel with which the interior phase finishes from `s`.
pub open spec fn least_fuel(s: Seq<char>, m: Map<Seq<char>, Seq<char>>) -> nat {
    choose|f: nat|
        (#[trigger] loop_result(s, m, f)) is Some && (f == 0 || loop_result(
            s,
            m,
            (f - 1) as nat,
        ) is None)
}

proof fn lemma_least_fuel_exists(s: Seq<char>, m: Map<Seq<char>, Seq<char>>, f: nat)
    requires
        loop_result(s, m, f) is Some,
    ensures
        exists|g: nat|
            (#[trigger] loop_result(s, m, g)) is Some && (g == 0 || loop_result(
                s,
                m,
                (g - 1) as nat,
            ) is None),
    decreases f,
{
    if f == 0 {
        assert(loop_result(s, m, 0) is Some && 0 == 0);
    } else if loop_result(s, m, (f - 1) as nat) is Some {
        lemma_least_fuel_exists(s, m, (f - 1) as nat);
    } else {
        assert(loop_result(s, m, f) is Some && loop_result(s, m, (f - 1) as nat) is None);
    }
}

/// With any fuel that finishes the interior phase in hand, the least fuel
/// also finishes it and is no larger.
pub proof fn lemma_least_fuel(s: Seq<char>, m: Map<Seq<char>, Seq<char>>, f: nat)
    requires
        loop_result(s, m, f) is Some,
    ensures
        loop_result(s, m, least_fuel(s, m)) is Some,
        least_fuel(s, m) <= f,
{
    lemma_least_fuel_exists(s, m, f);
    let g = least_fuel(s, m);
    if g > f {
        lemma_loop_result_monotonic(s, m, f, (g - 1) as nat);
        assert(false);
    }
}

/// The number of opening braces in `s`.
pub open spec fn open_brace_count(s: Seq<char>) -> nat
    decreases s.len(),
{
    if s.len() == 0 {
        0
    } else if s.last() == '{' {
        open_brace_count(s.drop_last()) + 1
    } else {
        open_brace_count(s.drop_last())
    }
}

proof fn lemma_count_concat(a: Seq<char>, b: Seq<char>)
    ensures
        open_brace_count(a + b) == open_brace_count(a) + open_brace_count(b),
    decreases b.len(),
{
    if b.len() == 0 {
        assert(a + b =~= a);
    } else {
        assert((a + b).drop_last() =~= a + b.drop_last());
        assert((a + b).last() == b.last());
        lemma_count_concat(a, b.drop_last());
    }
}

proof fn lemma_count_zero(s: Seq<char>)
    requires
        forall|j: int| 0 <= j < s.len() ==> s[j] != '{',
    ensures
        open_brace_count(s) == 0,
    decreases s.len(),
{
    if s.len() > 0 {
        lemma_count_zero(s.drop_last());
    }
}

proof fn lemma_count_positive(s: Seq<char>, j: int)
    requires
        0 <= j < s.len(),
        s[j] == '{',
    ensures
        open_brace_count(s) >= 1,
    decreases s.len(),
{
    if j < s.len() - 1 {
        lemma_count_positive(s.drop_last(), j);
    }
}

proof fn lemma_loop_halts_brace_bound(s: Seq<char>, m: Map<Seq<char>, Seq<char>>)
    requires
        values_brace_free(m),
    ensures
        loop_result(s, m, open_brace_count(s)) is Some,
    decreases open_brace_count(s),
{
    match first_live_from(s, 1) {
        None => {},
        Some(i) => {
            let name = token_name(s, i);
            if m.contains_key(name) {
                lemma_first_live_from_live(s, 1, i);
                let end = token_end(s, i);
                let next = splice_at(s, i, m[name]);
                assert(s =~= (s.take(i) + s.subrange(i, end)) + s.skip(end));
                lemma_count_concat(s.take(i), s.subrange(i, end));
                lemma_count_concat(s.take(i) + s.subrange(i, end), s.skip(end));
                lemma_count_concat(s.take(i), m[name]);
                lemma_count_concat(s.take(i) + m[name], s.skip(end));
                lemma_count_zero(m[name]);
                assert(s.subrange(i, end)[0] == '{');
                lemma_count_positive(s.subrange(i, end), 0);
                assert(open_brace_count(next) < open_brace_count(s));
                lemma_loop_halts_brace_bound(next, m);
                lemma_loop_result_monotonic(
                    next,
                    m,
                    open_brace_count(next),
                    (open_brace_count(s) - 1) as nat,
                );
            }
        },
    }
}

/// Law: when no replacement text contains an opening brace, rendering always
/// halts, whatever the template: every replacement consumes the replaced
/// token's opening brace and introduces no new one.
pub proof fn lemma_brace_free_values_halt(t: Seq<char>, m: Map<Seq<char>, Seq<char>>)
    requires
        values_brace_free(m),
    ensures
        render_halts(t, m),
{
    match start_phase(t, m) {
        Ok(s) => {
            lemma_loop_halts_brace_bound(s, m);
            assert(render_result(t, m, open_brace_count(s)) is Some);
        },
        Err(name) => {
            assert(render_result(t, m, 0) is Some);
        },
    }
}

/// The characters of `s`, one by one.
fn str_chars(s: &str) -> (v: Vec<char>)
    ensures
        v@ == s@,
{
    let n = s.unicode_len();
    let mut v: Vec<char> = Vec::new();
    let mut i: usize = 0;
    while i < n
        invariant
            i <= n,
            n == s@.len(),
            v@ == s@.take(i as int),
        decreases n - i,
    {
        let c = s.get_char(i);
        v.push(c);
        proof {
            assert(v@ =~= s@.take(i + 1));
        }
        i = i + 1;
    }
    proof {
        assert(s@.take(n as int) =~= s@);
    }
    v
}

/// Relies on `String`'s `FromIterator<char>` implementation: collecting
/// characters yields the string made of exactly those characters, in order.
#[verifier::external_body]
fn chars_to_string(v: &Vec<char>) -> (s: String)
    ensures
        s@ == v@,
{
    v.iter().collect()
}

/// The characters of `s` from position `a` up to position `b`.
fn subvec(s: &Vec<char>, a: usize, b: usize) -> (v: Vec<char>)
    requires
        a <= b <= s.len(),
    ensures
        v@ == s@.subrange(a as int, b as int),
{
    let mut v: Vec<char> = Vec::new();
    let mut i: usize = a;
    while i < b
        invariant
            a <= i <= b,
            b <= s.len(),
            v@ == s@.subrange(a as int, i as int),
        decreases b - i,
    {
        v.push(s[i]);
        proof {
            assert(v@ =~= s@.subrange(a as int, i + 1));
        }
        i = i + 1;
    }
    v
}

/// The characters of `s` with positions `cut_from` up to `cut_to` replaced
/// by the characters of `ins`.
fn splice(s: &Vec<char>, cut_from: usize, cut_to: usize, ins: &Vec<char>) -> (v: Vec<char>)
    requires
        cut_from <= cut_to <= s.len(),
    ensures
        v@ == s@.take(cut_from as int) + ins@ + s@.skip(cut_to as int),
{
    let mut v: Vec<char> = Vec::new();
    let mut i: usize = 0;
    while i < cut_from
        invariant
            i <= cut_from <= s.len(),
            v@ == s@.take(cut_from as int).take(i as int),
        decreases cut_from - i,
    {
        v.push(s[i]);
        proof {
            assert(v@ =~= s@.take(cut_from as int).take(i + 1));
        }
        i = i + 1;
    }
    proof {
        assert(s@.take(cut_from as int).take(cut_from as int) =~= s@.take(cut_from as int));
    }
    let mut j: usize = 0;
    while j < ins.len()
        invariant
            j <= ins.len() <= usize::MAX,
            v@ == s@.take(cut_from as int) + ins@.take(j as int),
        decreases ins.len() - j,
    {
        v.push(ins[j]);
        proof {
            assert(v@ =~= s@.take(cut_from as int) + ins@.take(j + 1));
        }
        j = j + 1;
    }
    proof {
        assert(s@.take(cut_from as int) + ins@.take(ins@.len() as int) =~= s@.take(
            cut_from as int,
        ) + ins@);
    }
    let mut k: usize = cut_to;
    while k < s.len()
        invariant
            cut_to <= k <= s.len(),
            v@ == s@.take(cut_from as int) + ins@ + s@.subrange(cut_to as int, k as int),
        decreases s.len() - k,
    {
        v.push(s[k]);
        proof {
            assert(v@ =~= s@.take(cut_from as int) + ins@ + s@.subrange(cut_to as int, k + 1));
        }
        k = k + 1;
    }
    proof {
        assert(s@.take(cut_from as int) + ins@ + s@.subrange(cut_to as int, s@.len() as int) =~= s@
            .take(cut_from as int) + ins@ + s@.skip(cut_to as int));
    }
    v
}

/// The rendered result, as character sequences.
pub open spec fn rendered_view(r: Result<String, String>) -> Result<Seq<char>, Seq<char>> {
    match r {
        Ok(out) => Ok(out@),
        Err(name) => Err(name@),
    }
}

/// Render `template` with the placeholder `values`.
///
/// Returns the template with every live token replaced by the text its name
/// maps to, escaped tokens and all other characters unchanged; or the name
/// of the first token, in left-to-right scan order, that `values` does not
/// cover, in which case no output is exposed.
pub fn render(template: &str, values: &ValueMap) -> (r: Result<String, String>)
    requires
        render_halts(template@, values@),
    ensures
        rendered_view(r) == spec_render(template@, values@),
{
    let t = str_chars(template);
    let ghost tv = template@;
    let ghost m = values@;
    let mut work: Vec<char>;
    match find_start_token(&t) {
        None => {
            work = t;
        },
        Some(n) => {
            let name = subvec(&t, 1, 1 + n);
            let name_str = chars_to_string(&name);
            proof {
                assert(name_str@ == token_name(tv, 0));
            }
            match values.get(name_str.as_str()) {
                None => {
                    proof {
                        assert(render_result(tv, m, 0) == Some(
                            Err::<Seq<char>, Seq<char>>(token_name(tv, 0)),
                        ));
                        lemma_spec_render_agrees(tv, m, 0);
                    }
                    return Err(name_str);
                },
                Some(value) => {
                    let vchars = str_chars(value.as_str());
                    work = splice(&t, 0, n + 2, &vchars);
                    proof {
                        assert(work@ == splice_at(tv, 0, m[token_name(tv, 0)]));
                    }
                },
            }
        },
    }
    let ghost s0 = work@;
    let ghost mut steps: nat = 0;
    proof {
        assert(start_phase(tv, m) == Ok::<Seq<char>, Seq<char>>(s0));
        let f0 = choose|fuel: nat| (#[trigger] render_result(tv, m, fuel)) is Some;
        assert(loop_result(s0, m, f0) is Some);
        assert(loop_halts(s0, m));
    }
    loop
        invariant
            loop_halts(work@, m),
            start_phase(tv, m) == Ok::<Seq<char>, Seq<char>>(s0),
            m == values@,
            tv == template@,
            forall|f: nat|
                f >= steps ==> #[trigger] loop_result(s0, m, f) == loop_result(
                    work@,
                    m,
                    (f - steps) as nat,
                ),
        decreases least_fuel(work@, m),
    {
        match find_first_live(&work) {
            None => {
                let out = chars_to_string(&work);
                proof {
                    assert(loop_result(work@, m, 0) == Some(Ok::<Seq<char>, Seq<char>>(work@)));
                    assert(loop_result(s0, m, steps) == Some(Ok::<Seq<char>, Seq<char>>(work@)));
                    lemma_spec_render_agrees(tv, m, steps);
                }
                return Ok(out);
            },
            Some((i, n)) => {
                proof {
                    assert(token_at(work@, i as int));
                }
                let name = subvec(&work, i + 1, i + 1 + n);
                let name_str = chars_to_string(&name);
                proof {
                    assert(name_str@ == token_name(work@, i as int));
                }
                match values.get(name_str.as_str()) {
                    None => {
                        proof {
                            assert(loop_result(work@, m, 0) == Some(
                                Err::<Seq<char>, Seq<char>>(name_str@),
                            ));
                            assert(loop_result(s0, m, steps) == Some(
                                Err::<Seq<char>, Seq<char>>(name_str@),
                            ));
                            lemma_spec_render_agrees(tv, m, steps);
                        }
                        return Err(name_str);
                    },
                    Some(value) => {
                        let vchars = str_chars(value.as_str());
                        let next = splice(&work, i, i + n + 2, &vchars);
                        proof {
                            let w = work@;
                            let nm = token_name(w, i as int);
                            assert(next@ == splice_at(w, i as int, m[nm]));
                            assert forall|f: nat| f >= steps + 1 implies #[trigger] loop_result(
                                s0,
                                m,
                                f,
                            ) == loop_result(next@, m, (f - steps - 1) as nat) by {
                                assert(loop_result(s0, m, f) == loop_result(
                                    w,
                                    m,
                                    (f - steps) as nat,
                                ));
                                assert(loop_result(w, m, (f - steps) as nat) == loop_result(
                                    next@,
                                    m,
                                    (f - steps - 1) as nat,
                                ));
                            }
                            let g0 = choose|fuel: nat| (#[trigger] loop_result(w, m, fuel)) is Some;
                            lemma_least_fuel(w, m, g0);
                            let lf = least_fuel(w, m);
                            assert(loop_result(w, m, 0) is None);
                            assert(lf >= 1);
                            assert(loop_result(next@, m, (lf - 1) as nat) is Some);
                            lemma_least_fuel(next@, m, (lf - 1) as nat);
                            assert(least_fuel(next@, m) < least_fuel(w, m));
                            assert(loop_halts(next@, m));
                            steps = steps + 1;
                        }
                        work = next;
                    },
                }
            },
        }
    }
}

/// Render `template` after checking that `values` guarantees a halt: when no
/// replacement text held by the mapping contains an opening brace, the
/// rendering is carried out and returned; otherwise nothing is.
pub fn try_render(template: &str, values: &ValueMap) -> (r: Option<Result<String, String>>)
    ensures
        match r {
            Some(res) => render_halts(template@, values@) && rendered_view(res) == spec_render(
                template@,
                values@,
            ),
            None => !values.entries_brace_free(),
        },
{
    if values.brace_free() {
        proof {
            lemma_brace_free_values_halt(template@, values@);
        }
        Some(render(template, values))
    } else {
        None
    }
}

} // verus!
