//! Template substitution for the spectator's prompts.

use vstd::prelude::*;
use crate::text::{chars_of, push_str, replace_chars, replace_spec, string_of};

verus! {

/// `{key}`: the placeholder a template writes for `key`.
pub open spec fn placeholder(key: Seq<char>) -> Seq<char> {
    seq!['{'] + key + seq!['}']
}

/// The template after replacing, in order, every placeholder of each
/// `(key, value)` pair with its value.
pub open spec fn substitute_spec(template: Seq<char>, vars: Seq<(Seq<char>, Seq<char>)>) -> Seq<char>
    decreases vars.len(),
{
    if vars.len() == 0 {
        template
    } else {
        substitute_spec(
            replace_spec(template, placeholder(vars[0].0), vars[0].1),
            vars.drop_first(),
        )
    }
}

pub open spec fn pair_views(vars: Seq<(&str, &str)>) -> Seq<(Seq<char>, Seq<char>)> {
    vars.map_values(|v: (&str, &str)| (v.0@, v.1@))
}

/// Substitute `{key}` placeholders in a template with values; unknown
/// placeholders stay as they are.
pub fn substitute(template: &str, vars: &[(&str, &str)]) -> (r: String)
    ensures
        r@ == substitute_spec(template@, pair_views(vars@)),
{
    let mut result = chars_of(template);
    let mut i: usize = 0;
    proof {
        assert(pair_views(vars@).skip(0) =~= pair_views(vars@));
    }
    while i < vars.len()
        invariant
            i <= vars@.len(),
            substitute_spec(template@, pair_views(vars@)) == substitute_spec(
                result@,
                pair_views(vars@).skip(i as int),
            ),
        decreases vars@.len() - i,
    {
        let (key, value) = vars[i];
        let mut pat: Vec<char> = Vec::new();
        pat.push('{');
        push_str(&mut pat, key);
        pat.push('}');
        let val = chars_of(value);
        proof {
            assert(pat@ =~= placeholder(key@));
            let rest = pair_views(vars@).skip(i as int);
            assert(rest[0] == (key@, value@));
            assert(rest.drop_first() =~= pair_views(vars@).skip(i + 1));
        }
        result = replace_chars(&result, &pat, &val);
        i = i + 1;
    }
    proof {
        assert(pair_views(vars@).skip(vars@.len() as int) =~= Seq::<(Seq<char>, Seq<char>)>::empty());
    }
    string_of(&result)
}

/// A template with no variables comes back unchanged.
pub proof fn law_substitute_nothing(template: Seq<char>)
    ensures
        substitute_spec(template, Seq::empty()) == template,
{
}

/// A variable whose placeholder the template does not hold changes
/// nothing.
pub proof fn law_absent_placeholder_unchanged(template: Seq<char>, key: Seq<char>, value: Seq<char>)
    requires
        crate::text::find(template, placeholder(key)) is None,
    ensures
        substitute_spec(template, seq![(key, value)]) == template,
{
    crate::text::lemma_replace_absent(template, placeholder(key), value);
    let vars = seq![(key, value)];
    assert(vars.drop_first() =~= Seq::<(Seq<char>, Seq<char>)>::empty());
    let once = replace_spec(template, placeholder(key), value);
    assert(substitute_spec(once, Seq::<(Seq<char>, Seq<char>)>::empty()) == once);
}

} // verus!
