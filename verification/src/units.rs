//! Display units for byte counts and the scaled value shown in each.

use vstd::arithmetic::power::pow;
use vstd::prelude::*;

verus! {

/// A unit in which a byte count is displayed. Each is 1024 times the one before.
#[derive(Clone, Copy, Debug, PartialEq, Eq, Structural)]
pub enum Unit {
    B,
    Kb,
    Mb,
    Gb,
}

/// How the display unit is chosen: by the size of the value, or fixed.
#[derive(Clone, Copy, Debug, PartialEq, Eq, Structural)]
pub enum UnitChoice {
    Auto,
    Kb,
    Mb,
    Gb,
}

/// A byte count expressed in a unit, in hundredths of that unit.
#[derive(Clone, Copy, Debug, PartialEq, Eq, Structural)]
pub struct Scaled {
    pub hundredths: u64,
    pub unit: Unit,
}

impl Unit {
    /// The rank of the unit: 0 for bytes up to 3 for GB.
    pub open spec fn exponent(self) -> nat {
        match self {
            Unit::B => 0,
            Unit::Kb => 1,
            Unit::Mb => 2,
            Unit::Gb => 3,
        }
    }

    /// The number of bytes in one unit.
    pub open spec fn size(self) -> nat {
        match self {
            Unit::B => 1,
            Unit::Kb => 1024,
            Unit::Mb => 1048576,
            Unit::Gb => 1073741824,
        }
    }

    /// The label printed after a value in this unit.
    pub open spec fn label_text(self) -> Seq<char> {
        match self {
            Unit::B => seq!['B'],
            Unit::Kb => seq!['K', 'B'],
            Unit::Mb => seq!['M', 'B'],
            Unit::Gb => seq!['G', 'B'],
        }
    }

    /// The label printed after a value in this unit.
    pub fn label(self) -> (text: &'static str)
        ensures
            text@ == self.label_text(),
    {
        proof {
            reveal_strlit("B");
            reveal_strlit("KB");
            reveal_strlit("MB");
            reveal_strlit("GB");
        }
        let text = match self {
            Unit::B => "B",
            Unit::Kb => "KB",
            Unit::Mb => "MB",
            Unit::Gb => "GB",
        };
        assert(text@ =~= self.label_text());
        text
    }
}

/// The largest unit whose size `bytes` reaches; bytes when it reaches none.
pub open spec fn auto_unit(bytes: nat) -> Unit {
    if bytes >= 1073741824 {
        Unit::Gb
    } else if bytes >= 1048576 {
        Unit::Mb
    } else if bytes >= 1024 {
        Unit::Kb
    } else {
        Unit::B
    }
}

/// The unit in which `bytes` is displayed under `choice`.
pub open spec fn unit_for(bytes: nat, choice: UnitChoice) -> Unit {
    match choice {
        UnitChoice::Auto => auto_unit(bytes),
        UnitChoice::Kb => Unit::Kb,
        UnitChoice::Mb => Unit::Mb,
        UnitChoice::Gb => Unit::Gb,
    }
}

/// The integer nearest to `num / den`; of two equally near, the even one.
pub open spec fn round_half_even(num: nat, den: nat) -> nat {
    let quotient = num / den;
    let rest = num % den;
    if 2 * rest > den || (2 * rest == den && quotient % 2 == 1) {
        quotient + 1
    } else {
        quotient
    }
}

/// `bytes` in hundredths of `unit`, rounded to the nearest hundredth.
pub open spec fn hundredths_in(bytes: nat, unit: Unit) -> nat {
    round_half_even(bytes * 100, unit.size())
}

/// The display unit for `bytes` under `choice`.
pub fn select_unit(bytes: u64, choice: UnitChoice) -> (unit: Unit)
    ensures
        unit == unit_for(bytes as nat, choice),
{
    match choice {
        UnitChoice::Auto => {
            if bytes >= 1073741824 {
                Unit::Gb
            } else if bytes >= 1048576 {
                Unit::Mb
            } else if bytes >= 1024 {
                Unit::Kb
            } else {
                Unit::B
            }
        },
        UnitChoice::Kb => Unit::Kb,
        UnitChoice::Mb => Unit::Mb,
        UnitChoice::Gb => Unit::Gb,
    }
}

/// Scales a byte count to its display unit: the unit that `choice` selects,
/// and the value in hundredths of it, rounded half to even.
pub fn format_bytes_unit(bytes: u64, choice: UnitChoice) -> (scaled: Scaled)
    ensures
        scaled.unit == unit_for(bytes as nat, choice),
        scaled.hundredths == hundredths_in(bytes as nat, scaled.unit),
{
    let unit = select_unit(bytes, choice);
    let den: u128 = match unit {
        Unit::B => 1,
        Unit::Kb => 1024,
        Unit::Mb => 1048576,
        Unit::Gb => 1073741824,
    };
    let num: u128 = bytes as u128 * 100;
    let quotient: u128 = num / den;
    let rest: u128 = num % den;
    let rounded: u128 = if 2 * rest > den || (2 * rest == den && quotient % 2 == 1) {
        quotient + 1
    } else {
        quotient
    };
    assert(unit == Unit::B ==> bytes < 1024);
    Scaled { hundredths: rounded as u64, unit }
}

/// Under automatic choice the unit is the largest of B, KB, MB, GB whose
/// size the byte count reaches, each size being a power of 1024; a count of
/// zero, which reaches none, is shown in bytes.
pub proof fn auto_unit_is_largest_reached(bytes: nat, other: Unit)
    ensures
        other.size() == pow(1024, other.exponent()),
        bytes >= 1 ==> bytes >= auto_unit(bytes).size(),
        bytes >= other.size() ==> other.exponent() <= auto_unit(bytes).exponent(),
        bytes == 0 ==> auto_unit(bytes) == Unit::B,
{
    reveal_with_fuel(pow, 5);
}

/// The displayed value is the hundredth nearest to the exact quotient: it is
/// off by at most half a hundredth of the unit.
pub proof fn hundredths_is_nearest(bytes: nat, unit: Unit)
    ensures
        2 * (hundredths_in(bytes, unit) * unit.size() - bytes * 100) <= unit.size(),
        2 * (bytes * 100 - hundredths_in(bytes, unit) * unit.size()) <= unit.size(),
{
    let num = bytes * 100;
    let shown = hundredths_in(bytes, unit);
    match unit {
        Unit::B => {
            assert(shown * 1 == num);
        },
        Unit::Kb => {
            assert(num == 1024 * (num / 1024) + num % 1024);
            assert(2 * (shown * 1024 - num) <= 1024 && 2 * (num - shown * 1024) <= 1024);
        },
        Unit::Mb => {
            assert(num == 1048576 * (num / 1048576) + num % 1048576);
            assert(2 * (shown * 1048576 - num) <= 1048576 && 2 * (num - shown * 1048576)
                <= 1048576);
        },
        Unit::Gb => {
            assert(num == 1073741824 * (num / 1073741824) + num % 1073741824);
            assert(2 * (shown * 1073741824 - num) <= 1073741824 && 2 * (num - shown * 1073741824)
                <= 1073741824);
        },
    }
}

} // verus!
