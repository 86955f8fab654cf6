use vstd::prelude::*;
use vstd::string::StrSliceExecFns;
use vstd::string::StringExecFns;

verus! {

/// A fixed-width name cell: short names are padded with spaces to `max`
/// characters, long names keep their first `max - 1` characters and end
/// with an ellipsis.
pub open spec fn truncate_spec(s: Seq<char>, max: int) -> Seq<char> {
    if s.len() <= max {
        s + Seq::new((max - s.len()) as nat, |i: int| ' ')
    } else {
        s.take(max - 1).push('…')
    }
}

/// Fit a display name into a cell of `max` characters.
pub fn truncate(s: &str, max: usize) -> (r: String)
    requires
        max >= 1,
    ensures
        r@ == truncate_spec(s@, max as int),
        r@.len() == max,
{
    let n = s.unicode_len();
    if n <= max {
        let mut r = s.to_owned();
        proof {
            assert(r@ =~= s@ + Seq::new(0, |k: int| ' '));
        }
        let mut i = n;
        while i < max
            invariant
                n <= i <= max,
                n == s@.len(),
                r@ == s@ + Seq::new((i - n) as nat, |k: int| ' '),
            decreases max - i,
        {
            r.append(" ");
            proof {
                reveal_strlit(" ");
                assert(" "@ =~= seq![' ']);
                assert((s@ + Seq::new((i - n) as nat, |k: int| ' ')) + seq![' '] =~= s@ + Seq::new(
                    (i + 1 - n) as nat,
                    |k: int| ' ',
                ));
            }
            i = i + 1;
        }
        r
    } else {
        let t = s.substring_char(0, max - 1);
        let mut r = t.to_owned();
        r.append("…");
        proof {
            reveal_strlit("…");
            assert("…"@ =~= seq!['…']);
            assert(r@ =~= s@.take(max - 1).push('…'));
        }
        r
    }
}

/// How a sensor temperature reads on the dashboard.
#[derive(Clone, Copy, Debug, PartialEq, Eq, Structural)]
pub enum TempState {
    Normal,
    Warm,
    Hot,
    Unknown,
}

/// The state a temperature reading falls in; temperatures are in tenths
/// of a degree Celsius, missing readings are unknown.
pub open spec fn temp_state_spec(t: Option<i64>) -> TempState {
    match t {
        Some(v) => if v < 600 {
            TempState::Normal
        } else if v < 800 {
            TempState::Warm
        } else {
            TempState::Hot
        },
        None => TempState::Unknown,
    }
}

/// Classify a sensor reading, in tenths of a degree Celsius.
pub fn temp_status(t_tenths: Option<i64>) -> (r: TempState)
    ensures
        r == temp_state_spec(t_tenths),
{
    match t_tenths {
        Some(v) => {
            if v < 600 {
                TempState::Normal
            } else if v < 800 {
                TempState::Warm
            } else {
                TempState::Hot
            }
        },
        None => TempState::Unknown,
    }
}

impl TempState {
    /// The dashboard label for this state.
    pub fn label(&self) -> (r: &'static str)
        ensures
            *self == TempState::Normal ==> r@ == "OK"@,
            *self == TempState::Warm ==> r@ == "WARM"@,
            *self == TempState::Hot ==> r@ == "HOT"@,
            *self == TempState::Unknown ==> r@ == "N/A"@,
    {
        match self {
            TempState::Normal => "OK",
            TempState::Warm => "WARM",
            TempState::Hot => "HOT",
            TempState::Unknown => "N/A",
        }
    }
}

} // verus!
