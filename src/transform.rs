//! Core functions: the transformers an entity applies to each effect it
//! receives before publishing the result to the environments it affects.
use vstd::prelude::*;

use crate::effect::{effects_view, lemma_effects_view_push, Effect, EffectModel};

verus! {

/// A transformer from effect to effect that an entity can carry. Users
/// supply their own by implementing this trait; [`Core`] holds the
/// built-in ones.
pub trait EffectCore {
    /// The effect this core makes of an effect with content `e`. An `Empty`
    /// result means that nothing is published.
    spec fn output(&self, e: EffectModel) -> EffectModel;

    /// Applies this core to an effect.
    fn process_effect(&self, effect: &Effect) -> (r: Effect)
        ensures
            r@ == self.output(effect@),
    ;
}

/// The built-in transformers.
#[derive(Clone, Copy, PartialEq, Eq, Structural, Debug)]
pub enum Core {
    /// Publishes each received effect as it is.
    Identity,
    /// Publishes the reversed text of an ASCII effect.
    Reverse,
    /// Publishes the upper-cased text of an ASCII effect.
    Uppercase,
}

/// The characters of `s` in reverse order.
pub open spec fn reversed(s: Seq<char>) -> Seq<char> {
    Seq::new(s.len(), |i: int| s[s.len() - 1 - i])
}

/// What `str::to_uppercase` returns for the characters `s`.
pub uninterp spec fn upper_of(s: Seq<char>) -> Seq<char>;

/// The effect that `core` makes of `e`. An `Empty` result means that
/// nothing is published.
pub open spec fn core_output(core: Core, e: EffectModel) -> EffectModel {
    match core {
        Core::Identity => e,
        Core::Reverse => match e {
            EffectModel::Ascii(s) => EffectModel::Ascii(reversed(s)),
            _ => EffectModel::Empty,
        },
        Core::Uppercase => match e {
            EffectModel::Ascii(s) => EffectModel::Ascii(upper_of(s)),
            _ => EffectModel::Empty,
        },
    }
}

/// Relies on `str::chars` collected into a `Vec`: the characters in order.
#[verifier::external_body]
fn chars_of(s: &str) -> (r: Vec<char>)
    ensures
        r@ == s@,
{
    s.chars().collect()
}

/// Relies on collecting `char`s into a `String`: the same characters in order.
#[verifier::external_body]
fn string_of(v: &Vec<char>) -> (r: String)
    ensures
        r@ == v@,
{
    v.iter().collect()
}

/// Relies on `str::to_uppercase`: the result depends on the characters alone.
#[verifier::external_body]
fn to_upper(s: &str) -> (r: String)
    ensures
        r@ == upper_of(s@),
{
    s.to_uppercase()
}

/// Reverses the characters of `s`.
pub fn reverse_text(s: &str) -> (r: String)
    ensures
        r@ == reversed(s@),
{
    let cs = chars_of(s);
    let n = cs.len();
    let mut out: Vec<char> = Vec::new();
    let mut i: usize = 0;
    while i < n
        invariant
            n == cs@.len(),
            cs@ == s@,
            i <= n,
            out@ == reversed(s@).subrange(0, i as int),
        decreases n - i,
    {
        out.push(cs[n - 1 - i]);
        i = i + 1;
        assert(out@ =~= reversed(s@).subrange(0, i as int));
    }
    assert(out@ =~= reversed(s@));
    string_of(&out)
}

/// What an entity with the core `core` publishes after receiving `rs`: each
/// received effect transformed by the core, in order, leaving out the empty
/// results. An entity without a core publishes nothing.
pub open spec fn outputs<C: EffectCore>(core: Option<C>, rs: Seq<EffectModel>) -> Seq<EffectModel>
    decreases rs.len(),
{
    match core {
        None => Seq::empty(),
        Some(c) => if rs.len() == 0 {
            Seq::empty()
        } else {
            let prev = outputs(core, rs.drop_last());
            let o = c.output(rs.last());
            if o is Empty {
                prev
            } else {
                prev.push(o)
            }
        },
    }
}

/// Computes what an entity with the core `core` publishes after receiving
/// `received`.
pub fn outputs_of<C: EffectCore>(core: &Option<C>, received: &Vec<Effect>) -> (r: Vec<Effect>)
    ensures
        effects_view(r@) == outputs(*core, effects_view(received@)),
{
    let mut out: Vec<Effect> = Vec::new();
    let c = match core {
        None => {
            assert(effects_view(out@) =~= Seq::empty());
            return out;
        },
        Some(c) => c,
    };
    let ghost rv = effects_view(received@);
    let mut i: usize = 0;
    while i < received.len()
        invariant
            *core == Some(*c),
            rv == effects_view(received@),
            i <= received@.len(),
            effects_view(out@) == outputs(*core, rv.subrange(0, i as int)),
        decreases received@.len() - i,
    {
        let o = c.process_effect(&received[i]);
        proof {
            assert(rv.subrange(0, i + 1 as int).drop_last() =~= rv.subrange(0, i as int));
            assert(rv.subrange(0, i + 1 as int).last() == received@[i as int]@);
        }
        if !o.is_empty() {
            let ghost prev = out@;
            out.push(o);
            proof {
                lemma_effects_view_push(prev, o);
            }
        }
        i = i + 1;
    }
    assert(rv.subrange(0, i as int) =~= rv);
    out
}

impl EffectCore for Core {
    open spec fn output(&self, e: EffectModel) -> EffectModel {
        core_output(*self, e)
    }

    fn process_effect(&self, effect: &Effect) -> (r: Effect) {
        match self {
            Core::Identity => effect.duplicate(),
            Core::Reverse => match effect {
                Effect::Ascii(s) => Effect::Ascii(reverse_text(s.as_str())),
                _ => Effect::Empty,
            },
            Core::Uppercase => match effect {
                Effect::Ascii(s) => Effect::Ascii(to_upper(s.as_str())),
                _ => Effect::Empty,
            },
        }
    }
}

} // verus!
