use vstd::prelude::*;

verus! {

/// Unit the decimal scaling loop settles on.
#[derive(Debug, Clone, Copy, PartialEq, Eq, Structural)]
pub enum Unit {
    Bytes,
    KibiByte,
    MegiByte,
    GibyByte,
    TebiByte,
}

/// Whether a size is rendered with a unit suffix or as a bare number.
#[derive(Debug, Clone, Copy, PartialEq, Eq, Structural)]
pub enum PrettyStyle {
    HumanReadable,
    NonHumanReadable,
}

/// A byte count together with the style it will be rendered in.
#[derive(Debug)]
pub struct PrettySize(pub u64, pub PrettyStyle);

/// Division by 1000 rounded to the nearest integer (half rounds up).
pub open spec fn round_div_1000(v: nat) -> nat {
    v / 1000 + if v % 1000 >= 500 {
        1nat
    } else {
        0nat
    }
}

/// The (value, unit-step) pair the scaling loop reaches from `(v, step)`:
/// divide by 1000, rounding, while the value is at least 1000 and a larger
/// unit remains (step 0 is bytes, step 4 is tera).
pub open spec fn scale_from(v: nat, step: nat) -> (nat, nat)
    decreases 4nat - step,
    when step <= 4
{
    if step < 4 && v >= 1000 {
        scale_from(round_div_1000(v), step + 1)
    } else {
        (v, step)
    }
}

/// The unit that belongs to a scaling step.
pub open spec fn unit_of_step(step: nat) -> Unit {
    if step == 0 {
        Unit::Bytes
    } else if step == 1 {
        Unit::KibiByte
    } else if step == 2 {
        Unit::MegiByte
    } else if step == 3 {
        Unit::GibyByte
    } else {
        Unit::TebiByte
    }
}

/// The suffix letter of a scaling step.
pub open spec fn unit_char_of_step(step: nat) -> char {
    if step == 0 {
        'B'
    } else if step == 1 {
        'K'
    } else if step == 2 {
        'M'
    } else if step == 3 {
        'G'
    } else {
        'T'
    }
}

/// The decimal digit character for `d < 10`.
pub open spec fn digit_char(d: nat) -> char {
    if d == 0 {
        '0'
    } else if d == 1 {
        '1'
    } else if d == 2 {
        '2'
    } else if d == 3 {
        '3'
    } else if d == 4 {
        '4'
    } else if d == 5 {
        '5'
    } else if d == 6 {
        '6'
    } else if d == 7 {
        '7'
    } else if d == 8 {
        '8'
    } else {
        '9'
    }
}

/// The decimal representation of `n`, without sign or padding.
pub open spec fn dec_str(n: nat) -> Seq<char>
    decreases n,
{
    if n < 10 {
        seq![digit_char(n)]
    } else {
        dec_str(n / 10) + seq![digit_char(n % 10)]
    }
}

/// The full rendering of a byte count: the scaled value in decimal, followed
/// by the unit letter exactly when the style is human-readable.
pub open spec fn pretty_spec(bytes: nat, human: bool) -> Seq<char> {
    let (v, step) = scale_from(bytes, 0);
    if human {
        dec_str(v) + seq![unit_char_of_step(step)]
    } else {
        dec_str(v)
    }
}

/// A one-character string slice for the digit `d`.
fn digit_str(d: u64) -> (s: &'static str)
    requires
        d < 10,
    ensures
        s@ == seq![digit_char(d as nat)],
{
    proof {
        reveal_strlit("0");
        reveal_strlit("1");
        reveal_strlit("2");
        reveal_strlit("3");
        reveal_strlit("4");
        reveal_strlit("5");
        reveal_strlit("6");
        reveal_strlit("7");
        reveal_strlit("8");
        reveal_strlit("9");
    }
    let s: &'static str = if d == 0 {
        "0"
    } else if d == 1 {
        "1"
    } else if d == 2 {
        "2"
    } else if d == 3 {
        "3"
    } else if d == 4 {
        "4"
    } else if d == 5 {
        "5"
    } else if d == 6 {
        "6"
    } else if d == 7 {
        "7"
    } else if d == 8 {
        "8"
    } else {
        "9"
    };
    proof {
        assert(s@ =~= seq![digit_char(d as nat)]);
    }
    s
}

/// Renders `n` in decimal.
pub fn u64_to_string(n: u64) -> (s: String)
    ensures
        s@ == dec_str(n as nat),
    decreases n,
{
    if n < 10 {
        String::from_str(digit_str(n))
    } else {
        let mut s = u64_to_string(n / 10);
        s.append(digit_str(n % 10));
        s
    }
}

impl PrettySize {
    pub fn from_bytes(bytes: u64) -> (r: Self)
        ensures
            r.0 == bytes,
            r.1 == PrettyStyle::NonHumanReadable,
    {
        Self(bytes, PrettyStyle::NonHumanReadable)
    }

    pub fn from_bytes_with_style(bytes: u64, human_readable: bool) -> (r: Self)
        ensures
            r.0 == bytes,
            r.1 == (if human_readable {
                PrettyStyle::HumanReadable
            } else {
                PrettyStyle::NonHumanReadable
            }),
    {
        let style = if human_readable {
            PrettyStyle::HumanReadable
        } else {
            PrettyStyle::NonHumanReadable
        };
        Self(bytes, style)
    }

    pub fn bytes(&self) -> (r: u64)
        ensures
            r == self.0,
    {
        self.0
    }

    /// Runs the scaling loop and returns the scaled value with its unit.
    pub fn convert(&self) -> (r: (u64, Unit))
        ensures
            r.0 as nat == scale_from(self.0 as nat, 0).0,
            r.1 == unit_of_step(scale_from(self.0 as nat, 0).1),
    {
        let mut v: u64 = self.0;
        let mut step: u8 = 0;
        while v >= 1000 && step < 4
            invariant
                step <= 4,
                scale_from(v as nat, step as nat) == scale_from(self.0 as nat, 0),
            decreases 4 - step,
        {
            let rounded: u64 = v / 1000 + if v % 1000 >= 500 {
                1
            } else {
                0
            };
            proof {
                assert(rounded as nat == round_div_1000(v as nat));
            }
            v = rounded;
            step = step + 1;
        }
        let unit = if step == 0 {
            Unit::Bytes
        } else if step == 1 {
            Unit::KibiByte
        } else if step == 2 {
            Unit::MegiByte
        } else if step == 3 {
            Unit::GibyByte
        } else {
            Unit::TebiByte
        };
        (v, unit)
    }

    /// The displayed text: the scaled value, with the unit letter appended
    /// exactly when the style is human-readable.
    pub fn to_string(&self) -> (r: String)
        ensures
            r@ == pretty_spec(self.0 as nat, self.1 == PrettyStyle::HumanReadable),
    {
        proof {
            reveal_strlit("B");
            reveal_strlit("K");
            reveal_strlit("M");
            reveal_strlit("G");
            reveal_strlit("T");
        }
        let (v, unit) = self.convert();
        let mut s = u64_to_string(v);
        match self.1 {
            PrettyStyle::HumanReadable => {
                let suffix: &'static str = match unit {
                    Unit::Bytes => "B",
                    Unit::KibiByte => "K",
                    Unit::MegiByte => "M",
                    Unit::GibyByte => "G",
                    Unit::TebiByte => "T",
                };
                proof {
                    assert(suffix@ =~= seq![unit_char_of_step(scale_from(self.0 as nat, 0).1)]);
                }
                s.append(suffix);
            },
            PrettyStyle::NonHumanReadable => {},
        }
        s
    }
}

} // verus!
