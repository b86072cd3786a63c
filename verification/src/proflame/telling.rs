//! How a state is put into words.

use vstd::prelude::*;

use crate::proflame::State;
use crate::text;

verus! {

/// The digit of a number below ten.
pub open spec fn digit(n: int) -> Seq<char> {
    seq![(48 + n) as char]
}

/// The digit of a switch.
pub open spec fn switch(set: bool) -> Seq<char> {
    digit(
        if set {
            1
        } else {
            0
        },
    )
}

/// A state is told by each of its fields, a switch as a bit and a level as a
/// digit; and by the two reserved bits, where they are not zero.
pub proof fn states_are_told(state: State)
    requires
        state.light <= 7,
        state.reserved <= 3,
        state.fan <= 7,
        state.flame <= 7,
    ensures
        ({
            let fields = "power="@ + switch(state.power) + " flame="@ + digit(state.flame as int)
                + " fan="@ + digit(state.fan as int) + " light="@ + digit(state.light as int)
                + " thermostat="@ + switch(state.thermostat) + " aux="@ + switch(state.aux) + " front="@
                + switch(state.front) + " pilot="@ + switch(state.pilot);
            &&& state.reserved == 0 ==> state.described() == fields
            &&& state.reserved != 0 ==> state.described() == fields + "  reserved="@ + digit(
                state.reserved as int / 2,
            ) + digit(state.reserved as int % 2)
                + " (expected 0 — the field layout may be wrong)"@
        }),
{
    lemma_one_digit(state.flame as nat);
    lemma_one_digit(state.fan as nat);
    lemma_one_digit(state.light as nat);
    lemma_one_digit(0);
    lemma_one_digit(1);
    if state.reserved != 0 {
        lemma_two_bits(state.reserved as nat);
        let fields = "power="@ + switch(state.power) + " flame="@ + digit(state.flame as int)
            + " fan="@ + digit(state.fan as int) + " light="@ + digit(state.light as int)
            + " thermostat="@ + switch(state.thermostat) + " aux="@ + switch(state.aux) + " front="@ + switch(
            state.front,
        ) + " pilot="@ + switch(state.pilot);
        let high = digit(state.reserved as int / 2);
        let low = digit(state.reserved as int % 2);
        assert(fields + "  reserved="@ + (high + low) =~= fields + "  reserved="@ + high + low);
    }
}

proof fn lemma_one_digit(n: nat)
    requires
        n < 10,
    ensures
        text::decimal(n) == digit(n as int),
{
    text::digits_are_written_in_order(n);
    assert(text::decimal(n) =~= digit(n as int));
}

proof fn lemma_two_bits(n: nat)
    requires
        n <= 3,
    ensures
        text::padded(text::in_base(n, 2), '0', 2) == digit(n as int / 2) + digit(n as int % 2),
{
    reveal_with_fuel(text::in_base, 3);
    assert(text::padded(text::in_base(n, 2), '0', 2) =~= digit(n as int / 2) + digit(n as int % 2));
}

} // verus!
