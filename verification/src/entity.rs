use vstd::prelude::*;

verus! {

/// Bits of an entity identifier that `bevy::ecs::entity::Entity::from_bits`
/// accepts: a non-zero generation in the high half and the placeholder flag
/// (the top bit) clear.
pub open spec fn valid_entity_bits(bits: u64) -> bool {
    0x1_0000_0000u64 <= bits < 0x8000_0000_0000_0000u64
}

/// The character of the decimal digit `d` (below ten).
pub open spec fn digit_char(d: nat) -> char {
    (d + 48) as char
}

/// The decimal digits of `n`, most significant first, without leading zeros
/// (`0` for zero), as `u32`'s `Display` writes them.
pub open spec fn decimal(n: nat) -> Seq<char>
    decreases n,
{
    if n < 10 {
        seq![digit_char(n)]
    } else {
        decimal(n / 10).push(digit_char(n % 10))
    }
}

/// The index of the entity whose identifier has the given bits: the low half.
pub open spec fn entity_index(bits: u64) -> nat {
    (bits % 0x1_0000_0000u64) as nat
}

/// The generation of the entity whose identifier has the given bits: the high
/// half without its flag bit.
pub open spec fn entity_generation(bits: u64) -> nat {
    ((bits / 0x1_0000_0000u64) % 0x8000_0000u64) as nat
}

/// The text that `Entity`'s `Debug` implementation writes for the entity whose
/// identifier has the given bits: its index, `v`, and its generation, both in
/// decimal (`254v2`).
pub open spec fn entity_debug_text(bits: u64) -> Seq<char> {
    decimal(entity_index(bits)) + "v"@ + decimal(entity_generation(bits))
}

/// Formats the entity with the given bits through
/// `bevy::ecs::entity::Entity::from_bits` and `Entity`'s `Debug`
/// implementation, which writes `{index}v{generation}` with the two numbers in
/// decimal. The contract claims that form.
#[verifier::external_body]
pub(crate) fn entity_debug(bits: u64) -> (text: String)
    requires
        valid_entity_bits(bits),
    ensures
        text@ == entity_debug_text(bits),
{
    format!("{:?}", bevy::ecs::entity::Entity::from_bits(bits))
}

} // verus!
