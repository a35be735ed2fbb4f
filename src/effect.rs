//! Effects: the opaque, clonable values that flow through environments.
use vstd::prelude::*;

verus! {

/// An effect in the EEE model.
#[derive(Debug, PartialEq, Eq)]
pub enum Effect {
    /// Empty effect
    Empty,
    /// ASCII text
    Ascii(String),
    /// A byte buffer
    Bytes(Vec<u8>),
    /// A tryte buffer
    Trytes(Vec<char>),
    /// A trit buffer
    Trits(Vec<i8>),
    Bytes2([u8; 2]),
    Bytes6([u8; 6]),
    Bytes18([u8; 18]),
    Bytes54([u8; 54]),
    Bytes162([u8; 162]),
    Bytes486([u8; 486]),
    Trytes3([char; 3]),
    Trytes9([char; 9]),
    Trytes27([char; 27]),
    Trytes81([char; 81]),
    Trytes243([char; 243]),
    Trytes729([char; 729]),
    Trits9([i8; 9]),
    Trits27([i8; 27]),
    Trits81([i8; 81]),
    Trits243([i8; 243]),
    Trits729([i8; 729]),
    Trits2187([i8; 2187]),
}

/// The mathematical content of an effect: its kind and its payload.
pub enum EffectModel {
    Empty,
    Ascii(Seq<char>),
    Bytes(Seq<u8>),
    Trytes(Seq<char>),
    Trits(Seq<i8>),
    Bytes2(Seq<u8>),
    Bytes6(Seq<u8>),
    Bytes18(Seq<u8>),
    Bytes54(Seq<u8>),
    Bytes162(Seq<u8>),
    Bytes486(Seq<u8>),
    Trytes3(Seq<char>),
    Trytes9(Seq<char>),
    Trytes27(Seq<char>),
    Trytes81(Seq<char>),
    Trytes243(Seq<char>),
    Trytes729(Seq<char>),
    Trits9(Seq<i8>),
    Trits27(Seq<i8>),
    Trits81(Seq<i8>),
    Trits243(Seq<i8>),
    Trits729(Seq<i8>),
    Trits2187(Seq<i8>),
}

impl View for Effect {
    type V = EffectModel;

    open spec fn view(&self) -> EffectModel {
        match self {
            Effect::Empty => EffectModel::Empty,
            Effect::Ascii(s) => EffectModel::Ascii(s@),
            Effect::Bytes(v) => EffectModel::Bytes(v@),
            Effect::Trytes(v) => EffectModel::Trytes(v@),
            Effect::Trits(v) => EffectModel::Trits(v@),
            Effect::Bytes2(a) => EffectModel::Bytes2(a@),
            Effect::Bytes6(a) => EffectModel::Bytes6(a@),
            Effect::Bytes18(a) => EffectModel::Bytes18(a@),
            Effect::Bytes54(a) => EffectModel::Bytes54(a@),
            Effect::Bytes162(a) => EffectModel::Bytes162(a@),
            Effect::Bytes486(a) => EffectModel::Bytes486(a@),
            Effect::Trytes3(a) => EffectModel::Trytes3(a@),
            Effect::Trytes9(a) => EffectModel::Trytes9(a@),
            Effect::Trytes27(a) => EffectModel::Trytes27(a@),
            Effect::Trytes81(a) => EffectModel::Trytes81(a@),
            Effect::Trytes243(a) => EffectModel::Trytes243(a@),
            Effect::Trytes729(a) => EffectModel::Trytes729(a@),
            Effect::Trits9(a) => EffectModel::Trits9(a@),
            Effect::Trits27(a) => EffectModel::Trits27(a@),
            Effect::Trits81(a) => EffectModel::Trits81(a@),
            Effect::Trits243(a) => EffectModel::Trits243(a@),
            Effect::Trits729(a) => EffectModel::Trits729(a@),
            Effect::Trits2187(a) => EffectModel::Trits2187(a@),
        }
    }
}

/// The effect sequence seen through the effects' views.
pub open spec fn effects_view(v: Seq<Effect>) -> Seq<EffectModel> {
    v.map_values(|e: Effect| e@)
}

/// Viewing a sequence with one more effect adds that effect's view.
pub proof fn lemma_effects_view_push(s: Seq<Effect>, e: Effect)
    ensures
        effects_view(s.push(e)) == effects_view(s).push(e@),
{
    assert(effects_view(s.push(e)) =~= effects_view(s).push(e@));
}

impl Effect {
    /// A copy of this effect with the same content.
    pub fn duplicate(&self) -> (r: Effect)
        ensures
            r@ == self@,
    {
        match self {
            Effect::Empty => Effect::Empty,
            Effect::Ascii(s) => Effect::Ascii(s.clone()),
            Effect::Bytes(v) => {
                let r = v.clone();
                assert(r@ =~= v@);
                Effect::Bytes(r)
            },
            Effect::Trytes(v) => {
                let r = v.clone();
                assert(r@ =~= v@);
                Effect::Trytes(r)
            },
            Effect::Trits(v) => {
                let r = v.clone();
                assert(r@ =~= v@);
                Effect::Trits(r)
            },
            Effect::Bytes2(a) => Effect::Bytes2(*a),
            Effect::Bytes6(a) => Effect::Bytes6(*a),
            Effect::Bytes18(a) => Effect::Bytes18(*a),
            Effect::Bytes54(a) => Effect::Bytes54(*a),
            Effect::Bytes162(a) => Effect::Bytes162(*a),
            Effect::Bytes486(a) => Effect::Bytes486(*a),
            Effect::Trytes3(a) => Effect::Trytes3(*a),
            Effect::Trytes9(a) => Effect::Trytes9(*a),
            Effect::Trytes27(a) => Effect::Trytes27(*a),
            Effect::Trytes81(a) => Effect::Trytes81(*a),
            Effect::Trytes243(a) => Effect::Trytes243(*a),
            Effect::Trytes729(a) => Effect::Trytes729(*a),
            Effect::Trits9(a) => Effect::Trits9(*a),
            Effect::Trits27(a) => Effect::Trits27(*a),
            Effect::Trits81(a) => Effect::Trits81(*a),
            Effect::Trits243(a) => Effect::Trits243(*a),
            Effect::Trits729(a) => Effect::Trits729(*a),
            Effect::Trits2187(a) => Effect::Trits2187(*a),
        }
    }

    /// Whether this is the empty effect.
    pub fn is_empty(&self) -> (r: bool)
        ensures
            r == (self@ is Empty),
    {
        match self {
            Effect::Empty => true,
            _ => false,
        }
    }
}

} // verus!
