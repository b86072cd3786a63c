//! The appliance state that the two command bytes carry.

use vstd::prelude::*;

use crate::text;

verus! {

/// The appliance state a frame carries, unpacked from `cmd1` and `cmd2`.
///
/// The layout comes from an independent reverse engineering effort. The power
/// bit, the flame level and the thermostat bit each moved exactly when the
/// corresponding button was pressed and never otherwise; the rest is
/// unverified until a controlled capture says so.
///
/// Between them the two command bytes are fully accounted for, which is what
/// makes a complete verification possible rather than an open-ended hunt for
/// buttons: 1 + 3 + 2 + 1 + 1 bits here, 1 + 3 + 1 + 3 there.
#[derive(Debug, Clone, Copy, PartialEq, Eq, Structural)]
pub struct State {
    /// Continuous pilot. Unverified.
    pub pilot: bool,
    /// Accent light, 0..=6. Unverified.
    pub light: u8,
    /// Bits 3..2 of `cmd1`, which the layout says are unused. Kept so that a
    /// frame where they are *not* zero is visible rather than silently
    /// discarded: that would mean the layout is wrong.
    pub reserved: u8,
    /// Thermostat ("smart") mode.
    pub thermostat: bool,
    /// Main power. Confirmed by a controlled capture.
    pub power: bool,
    /// Front flame / flame split. Unverified.
    pub front: bool,
    /// Blower, 0..=6. Unverified.
    pub fan: u8,
    /// Auxiliary power outlet. Unverified.
    pub aux: bool,
    /// Main flame, 0..=6. Confirmed by controlled captures.
    pub flame: u8,
}

/// A flag as a number.
pub open spec fn flag(set: bool) -> u8 {
    if set {
        1
    } else {
        0
    }
}

fn as_number(set: bool) -> (result: u8)
    ensures
        result == flag(set),
{
    if set {
        1
    } else {
        0
    }
}

/// A name, where something differs.
pub open spec fn named(name: Seq<char>, differs: bool) -> Seq<Seq<char>> {
    if differs {
        seq![name]
    } else {
        Seq::empty()
    }
}

/// The contents of a list of names.
pub open spec fn names(list: Seq<&'static str>) -> Seq<Seq<char>> {
    list.map_values(|name: &'static str| name@)
}

impl State {
    /// The state that two command bytes command.
    pub open spec fn commanded(cmd1: u8, cmd2: u8) -> State {
        State {
            pilot: cmd1 & 0x80 != 0,
            light: (cmd1 >> 4u8) & 0x07,
            reserved: (cmd1 >> 2u8) & 0x03,
            thermostat: cmd1 & 0x02 != 0,
            power: cmd1 & 0x01 != 0,
            front: cmd2 & 0x80 != 0,
            fan: (cmd2 >> 4u8) & 0x07,
            aux: cmd2 & 0x08 != 0,
            flame: cmd2 & 0x07,
        }
    }

    /// The first command byte of a state.
    pub open spec fn first_command(self) -> u8 {
        (flag(self.pilot) << 7u8) | ((self.light & 0x07) << 4u8) | ((self.reserved & 0x03) << 2u8)
            | (flag(self.thermostat) << 1u8) | flag(self.power)
    }

    /// The second command byte of a state.
    pub open spec fn second_command(self) -> u8 {
        (flag(self.front) << 7u8) | ((self.fan & 0x07) << 4u8) | (flag(self.aux) << 3u8) | (
        self.flame & 0x07)
    }

    /// Whether every field fits the bits it has.
    pub open spec fn fits(self) -> bool {
        self.light <= 7 && self.reserved <= 3 && self.fan <= 7 && self.flame <= 7
    }

    /// Names of the fields that differ, in the order of the layout.
    pub open spec fn changed(self, other: State) -> Seq<Seq<char>> {
        named("pilot"@, self.pilot != other.pilot) + named("light"@, self.light != other.light)
            + named("reserved"@, self.reserved != other.reserved) + named(
            "thermostat"@,
            self.thermostat != other.thermostat,
        ) + named("power"@, self.power != other.power) + named("front"@, self.front != other.front)
            + named("fan"@, self.fan != other.fan) + named("aux"@, self.aux != other.aux) + named(
            "flame"@,
            self.flame != other.flame,
        )
    }

    /// The state in words.
    pub open spec fn described(self) -> Seq<char> {
        let fields = "power="@ + text::decimal(flag(self.power) as nat) + " flame="@
            + text::decimal(self.flame as nat) + " fan="@ + text::decimal(self.fan as nat)
            + " light="@ + text::decimal(self.light as nat) + " thermostat="@ + text::decimal(
            flag(self.thermostat) as nat,
        ) + " aux="@ + text::decimal(flag(self.aux) as nat) + " front="@ + text::decimal(
            flag(self.front) as nat,
        ) + " pilot="@ + text::decimal(flag(self.pilot) as nat);
        if self.reserved == 0 {
            fields
        } else {
            fields + "  reserved="@ + text::padded(
                text::in_base(self.reserved as nat, 2),
                '0',
                2,
            ) + " (expected 0 — the field layout may be wrong)"@
        }
    }

    /// Unpack the two command bytes.
    pub fn from_commands(cmd1: u8, cmd2: u8) -> (result: State)
        ensures
            result == State::commanded(cmd1, cmd2),
    {
        State {
            pilot: cmd1 & 0x80 != 0,
            light: (cmd1 >> 4u8) & 0x07,
            reserved: (cmd1 >> 2u8) & 0x03,
            thermostat: cmd1 & 0x02 != 0,
            power: cmd1 & 0x01 != 0,
            front: cmd2 & 0x80 != 0,
            fan: (cmd2 >> 4u8) & 0x07,
            aux: cmd2 & 0x08 != 0,
            flame: cmd2 & 0x07,
        }
    }

    /// Repack into the two command bytes.
    pub fn to_commands(self) -> (result: (u8, u8))
        ensures
            result.0 == self.first_command(),
            result.1 == self.second_command(),
    {
        let cmd1: u8 = (as_number(self.pilot) << 7u8) | ((self.light & 0x07) << 4u8) | ((
        self.reserved & 0x03) << 2u8) | (as_number(self.thermostat) << 1u8) | as_number(
            self.power,
        );
        let cmd2: u8 = (as_number(self.front) << 7u8) | ((self.fan & 0x07) << 4u8) | (as_number(
            self.aux,
        ) << 3u8) | (self.flame & 0x07);
        (cmd1, cmd2)
    }

    /// Names of the fields that differ, for spotting what a button changed.
    pub fn differences(&self, other: &State) -> (result: Vec<&'static str>)
        ensures
            names(result@) == self.changed(*other),
    {
        let mut changed: Vec<&'static str> = Vec::new();
        note(&mut changed, "pilot", self.pilot != other.pilot);
        note(&mut changed, "light", self.light != other.light);
        note(&mut changed, "reserved", self.reserved != other.reserved);
        note(&mut changed, "thermostat", self.thermostat != other.thermostat);
        note(&mut changed, "power", self.power != other.power);
        note(&mut changed, "front", self.front != other.front);
        note(&mut changed, "fan", self.fan != other.fan);
        note(&mut changed, "aux", self.aux != other.aux);
        note(&mut changed, "flame", self.flame != other.flame);
        assert(names(changed@) =~= self.changed(*other));
        changed
    }

    /// The state in words.
    pub fn to_string(&self) -> (result: String)
        ensures
            result@ == self.described(),
    {
        let mut out: String = String::new();
        out.append("power=");
        text::push_decimal(&mut out, as_number(self.power) as u128);
        out.append(" flame=");
        text::push_decimal(&mut out, self.flame as u128);
        out.append(" fan=");
        text::push_decimal(&mut out, self.fan as u128);
        out.append(" light=");
        text::push_decimal(&mut out, self.light as u128);
        out.append(" thermostat=");
        text::push_decimal(&mut out, as_number(self.thermostat) as u128);
        out.append(" aux=");
        text::push_decimal(&mut out, as_number(self.aux) as u128);
        out.append(" front=");
        text::push_decimal(&mut out, as_number(self.front) as u128);
        out.append(" pilot=");
        text::push_decimal(&mut out, as_number(self.pilot) as u128);
        if self.reserved != 0 {
            out.append("  reserved=");
            text::push_two_digits(&mut out, self.reserved as u128, 2);
            out.append(" (expected 0 — the field layout may be wrong)");
        }
        assert(out@ =~= self.described());
        out
    }
}

fn note(changed: &mut Vec<&'static str>, name: &'static str, differs: bool)
    ensures
        names(final(changed)@) == names(old(changed)@) + named(name@, differs),
{
    if differs {
        changed.push(name);
    }
    assert(names(changed@) =~= names(old(changed)@) + named(name@, differs));
}

/// A state repacks into the bytes it came from.
pub proof fn commands_survive(cmd1: u8, cmd2: u8)
    ensures
        State::commanded(cmd1, cmd2).first_command() == cmd1,
        State::commanded(cmd1, cmd2).second_command() == cmd2,
        State::commanded(cmd1, cmd2).fits(),
{
    let state = State::commanded(cmd1, cmd2);
    let a = flag(state.pilot);
    let b = flag(state.thermostat);
    let c = flag(state.power);
    let d = flag(state.front);
    let e = flag(state.aux);
    assert((a << 7u8) | ((((cmd1 >> 4u8) & 0x07) & 0x07) << 4u8) | ((((cmd1 >> 2u8) & 0x03) & 0x03)
        << 2u8) | (b << 1u8) | c == cmd1) by (bit_vector)
        requires
            a == if cmd1 & 0x80 != 0 {
                1u8
            } else {
                0u8
            },
            b == if cmd1 & 0x02 != 0 {
                1u8
            } else {
                0u8
            },
            c == if cmd1 & 0x01 != 0 {
                1u8
            } else {
                0u8
            },
    ;
    assert((d << 7u8) | ((((cmd2 >> 4u8) & 0x07) & 0x07) << 4u8) | (e << 3u8) | ((cmd2 & 0x07)
        & 0x07) == cmd2) by (bit_vector)
        requires
            d == if cmd2 & 0x80 != 0 {
                1u8
            } else {
                0u8
            },
            e == if cmd2 & 0x08 != 0 {
                1u8
            } else {
                0u8
            },
    ;
    assert((cmd1 >> 4u8) & 0x07 <= 7 && (cmd1 >> 2u8) & 0x03 <= 3 && (cmd2 >> 4u8) & 0x07 <= 7
        && cmd2 & 0x07 <= 7) by (bit_vector);
}

/// A state whose fields fit their bits survives the command bytes.
pub proof fn states_survive(state: State)
    requires
        state.fits(),
    ensures
        State::commanded(state.first_command(), state.second_command()) == state,
{
    let a = flag(state.pilot);
    let b = flag(state.thermostat);
    let c = flag(state.power);
    let d = flag(state.front);
    let e = flag(state.aux);
    let light = state.light;
    let reserved = state.reserved;
    let fan = state.fan;
    let flame = state.flame;
    let first = state.first_command();
    let second = state.second_command();
    assert((first & 0x80 != 0) == (a == 1) && (first >> 4u8) & 0x07 == light && (first >> 2u8)
        & 0x03 == reserved && (first & 0x02 != 0) == (b == 1) && (first & 0x01 != 0) == (c == 1))
        by (bit_vector)
        requires
            first == (a << 7u8) | ((light & 0x07) << 4u8) | ((reserved & 0x03) << 2u8) | (b << 1u8)
                | c,
            a <= 1,
            b <= 1,
            c <= 1,
            light <= 7,
            reserved <= 3,
    ;
    assert((second & 0x80 != 0) == (d == 1) && (second >> 4u8) & 0x07 == fan && (second & 0x08 != 0)
        == (e == 1) && second & 0x07 == flame) by (bit_vector)
        requires
            second == (d << 7u8) | ((fan & 0x07) << 4u8) | (e << 3u8) | (flame & 0x07),
            d <= 1,
            e <= 1,
            fan <= 7,
            flame <= 7,
    ;
}

/// Nothing is reported as changed exactly where nothing differs.
pub proof fn no_change_is_equality(state: State, other: State)
    ensures
        state.changed(other).len() == 0 <==> state == other,
{
    let first = named("pilot"@, state.pilot != other.pilot) + named(
        "light"@,
        state.light != other.light,
    ) + named("reserved"@, state.reserved != other.reserved);
    let second = first + named("thermostat"@, state.thermostat != other.thermostat) + named(
        "power"@,
        state.power != other.power,
    ) + named("front"@, state.front != other.front);
    let third = second + named("fan"@, state.fan != other.fan) + named(
        "aux"@,
        state.aux != other.aux,
    ) + named("flame"@, state.flame != other.flame);
    assert(first.len() == 0 <==> state.pilot == other.pilot && state.light == other.light
        && state.reserved == other.reserved);
    assert(second.len() == 0 <==> first.len() == 0 && state.thermostat == other.thermostat
        && state.power == other.power && state.front == other.front);
    assert(third.len() == 0 <==> second.len() == 0 && state.fan == other.fan && state.aux
        == other.aux && state.flame == other.flame);
    assert(third == state.changed(other));
}

/// Where each field sits: the first byte is the pilot, three bits of light, two
/// reserved ones, the thermostat and the power, from the top down; the second
/// one is the front flame, three bits of fan, the outlet, and three bits of
/// flame.
pub proof fn fields_have_their_places(cmd1: u8, cmd2: u8)
    ensures
        ({
            let state = State::commanded(cmd1, cmd2);
            &&& state.light <= 7 && state.reserved <= 3 && state.fan <= 7 && state.flame <= 7
            &&& cmd1 == (if state.pilot {
                128int
            } else {
                0
            }) + 16 * state.light + 4 * state.reserved + (if state.thermostat {
                2int
            } else {
                0
            }) + (if state.power {
                1int
            } else {
                0
            })
            &&& cmd2 == (if state.front {
                128int
            } else {
                0
            }) + 16 * state.fan + (if state.aux {
                8int
            } else {
                0
            }) + state.flame
        }),
{
    assert((cmd1 >> 4u8) & 0x07 <= 7 && (cmd1 >> 2u8) & 0x03 <= 3 && (cmd2 >> 4u8) & 0x07 <= 7
        && cmd2 & 0x07 <= 7 && cmd1 == (if cmd1 & 0x80 != 0 {
        128u8
    } else {
        0u8
    }) + 16 * ((cmd1 >> 4u8) & 0x07) + 4 * ((cmd1 >> 2u8) & 0x03) + (if cmd1 & 0x02 != 0 {
        2u8
    } else {
        0u8
    }) + (if cmd1 & 0x01 != 0 {
        1u8
    } else {
        0u8
    }) && cmd2 == (if cmd2 & 0x80 != 0 {
        128u8
    } else {
        0u8
    }) + 16 * ((cmd2 >> 4u8) & 0x07) + (if cmd2 & 0x08 != 0 {
        8u8
    } else {
        0u8
    }) + (cmd2 & 0x07)) by (bit_vector);
}

/// A state is packed so that every field is found in its place again, and what
/// does not fit a field's bits does not spill into another.
pub proof fn packing_fills_the_places(state: State)
    ensures
        ({
            let found = State::commanded(state.first_command(), state.second_command());
            &&& found.pilot == state.pilot
            &&& found.light == state.light % 8
            &&& found.reserved == state.reserved % 4
            &&& found.thermostat == state.thermostat
            &&& found.power == state.power
            &&& found.front == state.front
            &&& found.fan == state.fan % 8
            &&& found.aux == state.aux
            &&& found.flame == state.flame % 8
        }),
{
    let a = flag(state.pilot);
    let b = flag(state.thermostat);
    let c = flag(state.power);
    let d = flag(state.front);
    let e = flag(state.aux);
    let light = state.light;
    let reserved = state.reserved;
    let fan = state.fan;
    let flame = state.flame;
    let first = state.first_command();
    let second = state.second_command();
    assert((first & 0x80 != 0) == (a == 1) && (first >> 4u8) & 0x07 == light % 8 && (first >> 2u8)
        & 0x03 == reserved % 4 && (first & 0x02 != 0) == (b == 1) && (first & 0x01 != 0) == (c
        == 1)) by (bit_vector)
        requires
            first == (a << 7u8) | ((light & 0x07) << 4u8) | ((reserved & 0x03) << 2u8) | (b << 1u8)
                | c,
            a <= 1,
            b <= 1,
            c <= 1,
    ;
    assert((second & 0x80 != 0) == (d == 1) && (second >> 4u8) & 0x07 == fan % 8 && (second & 0x08
        != 0) == (e == 1) && second & 0x07 == flame % 8) by (bit_vector)
        requires
            second == (d << 7u8) | ((fan & 0x07) << 4u8) | (e << 3u8) | (flame & 0x07),
            d <= 1,
            e <= 1,
    ;
}

proof fn lemma_named(before: Seq<Seq<char>>, name: Seq<char>, differs: bool)
    ensures
        forall|other: Seq<char>| #[trigger]
            (before + named(name, differs)).contains(other) <==> before.contains(other) || (differs
                && other == name),
{
    let all = before + named(name, differs);
    assert forall|other: Seq<char>| #[trigger] all.contains(other) <==> before.contains(other) || (
    differs && other == name) by {
        if before.contains(other) {
            let k = choose|k: int| 0 <= k < before.len() && before[k] == other;
            assert(all[k] == other);
        }
        if differs && other == name {
            assert(all[before.len() as int] == other);
        }
        if all.contains(other) {
            let k = choose|k: int| 0 <= k < all.len() && all[k] == other;
            if k < before.len() {
                assert(before[k] == other);
            }
        }
    }
}

/// A button's change is named by the field it changed, and by no other.
pub proof fn changes_are_named(state: State, other: State)
    ensures
        state.changed(other).contains("pilot"@) <==> state.pilot != other.pilot,
        state.changed(other).contains("light"@) <==> state.light != other.light,
        state.changed(other).contains("reserved"@) <==> state.reserved != other.reserved,
        state.changed(other).contains("thermostat"@) <==> state.thermostat != other.thermostat,
        state.changed(other).contains("power"@) <==> state.power != other.power,
        state.changed(other).contains("front"@) <==> state.front != other.front,
        state.changed(other).contains("fan"@) <==> state.fan != other.fan,
        state.changed(other).contains("aux"@) <==> state.aux != other.aux,
        state.changed(other).contains("flame"@) <==> state.flame != other.flame,
{
    lemma_names_differ();
    let n0 = Seq::<Seq<char>>::empty();
    let n1 = n0 + named("pilot"@, state.pilot != other.pilot);
    let n2 = n1 + named("light"@, state.light != other.light);
    let n3 = n2 + named("reserved"@, state.reserved != other.reserved);
    let n4 = n3 + named("thermostat"@, state.thermostat != other.thermostat);
    let n5 = n4 + named("power"@, state.power != other.power);
    let n6 = n5 + named("front"@, state.front != other.front);
    let n7 = n6 + named("fan"@, state.fan != other.fan);
    let n8 = n7 + named("aux"@, state.aux != other.aux);
    let n9 = n8 + named("flame"@, state.flame != other.flame);
    lemma_named(n0, "pilot"@, state.pilot != other.pilot);
    lemma_named(n1, "light"@, state.light != other.light);
    lemma_named(n2, "reserved"@, state.reserved != other.reserved);
    lemma_named(n3, "thermostat"@, state.thermostat != other.thermostat);
    lemma_named(n4, "power"@, state.power != other.power);
    lemma_named(n5, "front"@, state.front != other.front);
    lemma_named(n6, "fan"@, state.fan != other.fan);
    lemma_named(n7, "aux"@, state.aux != other.aux);
    lemma_named(n8, "flame"@, state.flame != other.flame);
    assert(n1 =~= named("pilot"@, state.pilot != other.pilot));
    assert(n9 =~= state.changed(other));
}

proof fn lemma_names_differ()
    ensures
        "pilot"@ != "light"@,
        "pilot"@ != "power"@,
        "pilot"@ != "front"@,
        "pilot"@ != "flame"@,
        "light"@ != "power"@,
        "light"@ != "front"@,
        "light"@ != "flame"@,
        "power"@ != "front"@,
        "power"@ != "flame"@,
        "front"@ != "flame"@,
        "fan"@ != "aux"@,
        "pilot"@.len() == 5,
        "light"@.len() == 5,
        "power"@.len() == 5,
        "front"@.len() == 5,
        "flame"@.len() == 5,
        "fan"@.len() == 3,
        "aux"@.len() == 3,
        "reserved"@.len() == 8,
        "thermostat"@.len() == 10,
{
    reveal_strlit("pilot");
    reveal_strlit("light");
    reveal_strlit("reserved");
    reveal_strlit("thermostat");
    reveal_strlit("power");
    reveal_strlit("front");
    reveal_strlit("fan");
    reveal_strlit("aux");
    reveal_strlit("flame");
    assert("pilot"@[0] == 'p' && "light"@[0] == 'l' && "power"@[0] == 'p' && "front"@[0] == 'f'
        && "flame"@[0] == 'f' && "pilot"@[1] == 'i' && "power"@[1] == 'o' && "front"@[1] == 'r'
        && "flame"@[1] == 'l' && "fan"@[0] == 'f' && "aux"@[0] == 'a');
}

} // verus!
