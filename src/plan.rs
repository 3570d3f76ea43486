//! What a customer plan looks like from outside: the per-month actions
//! handed to the judge, the personality's repayment-duration limit, the
//! interest rebate of an award, and the checks a submission must pass.
use vstd::prelude::*;

verus! {

/// One customer's action in one month, as the judge reads it.
#[derive(Clone, Copy, Debug)]
pub struct Action {
    pub type_: &'static str,
    pub award: &'static str,
}

/// The action for a calendar slot: an award by name, or a skip.
pub fn action_for(slot: Option<&'static str>) -> (r: Action)
    ensures
        match slot {
            Some(name) => r.type_@ == "Award"@ && r.award == name,
            None => r.type_@ == "Skip"@ && r.award@ == "None"@,
        },
{
    match slot {
        Some(name) => Action { type_: "Award", award: name },
        None => Action { type_: "Skip", award: "None" },
    }
}

/// The calendar slot of month `month`: a month past the calendar's end is
/// a skip.
pub open spec fn slot_at(calendar: Seq<Option<&'static str>>, month: int) -> Option<&'static str> {
    if 0 <= month < calendar.len() {
        calendar[month]
    } else {
        None
    }
}

/// Every customer's action in month `month`, in the order of `calendars`.
pub fn month_actions(calendars: &Vec<Vec<Option<&'static str>>>, month: usize) -> (r: Vec<Action>)
    ensures
        r@.len() == calendars@.len(),
        forall|c: int|
            0 <= c < calendars@.len() ==> match #[trigger] slot_at(calendars@[c]@, month as int) {
                Some(name) => r@[c].type_@ == "Award"@ && r@[c].award == name,
                None => r@[c].type_@ == "Skip"@ && r@[c].award@ == "None"@,
            },
{
    let mut r: Vec<Action> = Vec::new();
    let mut c: usize = 0;
    while c < calendars.len()
        invariant
            0 <= c <= calendars@.len(),
            r@.len() == c,
            forall|k: int|
                0 <= k < c ==> match #[trigger] slot_at(calendars@[k]@, month as int) {
                    Some(name) => r@[k].type_@ == "Award"@ && r@[k].award == name,
                    None => r@[k].type_@ == "Skip"@ && r@[k].award@ == "None"@,
                },
        decreases calendars@.len() - c,
    {
        let calendar = &calendars[c];
        let slot = if month < calendar.len() {
            calendar[month]
        } else {
            None
        };
        r.push(action_for(slot));
        c = c + 1;
    }
    r
}

/// What `str::to_lowercase` makes of a string.
pub uninterp spec fn lower_of(s: Seq<char>) -> Seq<char>;

/// Relies on `str::to_lowercase`: the result depends on the characters
/// alone.
#[verifier::external_body]
fn lowercase(s: &str) -> (r: String)
    ensures
        r@ == lower_of(s@),
{
    s.to_lowercase()
}

/// The repayment-duration limit, as a multiple of the game length, of a
/// personality by its lower-case name.
pub open spec fn months_limit_for(name: Seq<char>) -> Option<usize> {
    if name == "conservative"@ {
        Some(1)
    } else if name == "risktaker"@ {
        Some(2)
    } else if name == "innovative"@ {
        Some(3)
    } else if name == "practical"@ {
        Some(4)
    } else if name == "spontaneous"@ {
        Some(5)
    } else {
        None
    }
}

/// The repayment-duration multiplier of a personality named in lower case;
/// `None` for a name that is not a known personality.
pub fn months_limit_of_lowercase(name: &str) -> (r: Option<usize>)
    ensures
        r == months_limit_for(name@),
{
    let s = name.to_owned();
    if s == String::from_str("conservative") {
        Some(1)
    } else if s == String::from_str("risktaker") {
        Some(2)
    } else if s == String::from_str("innovative") {
        Some(3)
    } else if s == String::from_str("practical") {
        Some(4)
    } else if s == String::from_str("spontaneous") {
        Some(5)
    } else {
        None
    }
}

/// The repayment-duration multiplier of a personality, whatever the case of
/// its name; `None` for a name that is not a known personality.
pub fn months_limit_multiplier(name: &str) -> (r: Option<usize>)
    ensures
        r == months_limit_for(lower_of(name@)),
{
    let lower = lowercase(name);
    months_limit_of_lowercase(lower.as_str())
}

/// The fraction of the month's interest payment that an award adds to its
/// declared cost.
#[derive(Clone, Copy, Debug, PartialEq, Eq, Structural)]
pub enum InterestRebate {
    /// An ordinary award: its cost is the declared cost.
    Zero,
    /// Half of the month's interest is waived.
    Half,
    /// The month's interest is waived.
    Full,
}

/// The rebate of an award by its name.
pub open spec fn rebate_for(name: Seq<char>) -> InterestRebate {
    if name == "NoInterestRate"@ {
        InterestRebate::Full
    } else if name == "HalfInterestRate"@ {
        InterestRebate::Half
    } else {
        InterestRebate::Zero
    }
}

/// The rebate of an award by its name: the two rate-relief awards waive all
/// or half of the month's interest, every other award none.
pub fn rebate_of(name: &str) -> (r: InterestRebate)
    ensures
        r == rebate_for(name@),
{
    let s = name.to_owned();
    if s == String::from_str("NoInterestRate") {
        InterestRebate::Full
    } else if s == String::from_str("HalfInterestRate") {
        InterestRebate::Half
    } else {
        InterestRebate::Zero
    }
}

/// A repayment duration is allowed when it is at most the personality's
/// multiplier times the game length.
pub fn duration_allowed(months: usize, limit_multiplier: usize, game_length: usize) -> (r: bool)
    ensures
        r == (months as int <= limit_multiplier as int * game_length as int),
{
    match limit_multiplier.checked_mul(game_length) {
        Some(limit) => months <= limit,
        None => {
            assert(limit_multiplier as int * game_length as int > usize::MAX);
            true
        },
    }
}

/// The shape of one customer's entry in a submission.
#[derive(Clone, Copy, Debug)]
pub struct EntryShape {
    /// Number of months in the entry's award calendar.
    pub calendar_len: usize,
    /// The named customer is on the map.
    pub known_customer: bool,
    /// The proposed repayment duration.
    pub months: usize,
    /// The customer's personality multiplier for the duration limit.
    pub limit_multiplier: usize,
}

/// Why a submission is refused.
#[derive(Clone, Copy, Debug, PartialEq, Eq, Structural)]
pub enum SubmissionError {
    /// No customer was chosen.
    Empty,
    /// Some calendar has more months than the game.
    CalendarTooLong,
    /// Some calendar has fewer months than the game.
    CalendarTooShort,
    /// Some entry names a customer who is not on the map.
    UnknownCustomer,
    /// Some repayment duration exceeds the personality's limit.
    DurationTooLong,
}

/// Checks a submission's shape in this order: at least one customer, no
/// calendar longer than the game, none shorter, every customer on the map,
/// every duration within its limit. The first rule broken is reported.
pub fn check_submission(entries: &Vec<EntryShape>, game_length: usize) -> (r: Result<(), SubmissionError>)
    ensures
        r == (if entries@.len() == 0 {
            Err(SubmissionError::Empty)
        } else if exists|i: int| 0 <= i < entries@.len() && (#[trigger] entries@[i]).calendar_len > game_length {
            Err(SubmissionError::CalendarTooLong)
        } else if exists|i: int| 0 <= i < entries@.len() && (#[trigger] entries@[i]).calendar_len < game_length {
            Err(SubmissionError::CalendarTooShort)
        } else if exists|i: int| 0 <= i < entries@.len() && !(#[trigger] entries@[i]).known_customer {
            Err(SubmissionError::UnknownCustomer)
        } else if exists|i: int|
            0 <= i < entries@.len() && (#[trigger] entries@[i]).months as int > entries@[i].limit_multiplier as int * game_length as int {
            Err(SubmissionError::DurationTooLong)
        } else {
            Ok(())
        }),
{
    if entries.len() == 0 {
        return Err(SubmissionError::Empty);
    }
    let mut i: usize = 0;
    while i < entries.len()
        invariant
            0 <= i <= entries@.len(),
            forall|k: int| 0 <= k < i ==> (#[trigger] entries@[k]).calendar_len <= game_length,
        decreases entries@.len() - i,
    {
        if entries[i].calendar_len > game_length {
            return Err(SubmissionError::CalendarTooLong);
        }
        i = i + 1;
    }
    let mut i: usize = 0;
    while i < entries.len()
        invariant
            0 <= i <= entries@.len(),
            forall|k: int| 0 <= k < entries@.len() ==> (#[trigger] entries@[k]).calendar_len <= game_length,
            forall|k: int| 0 <= k < i ==> (#[trigger] entries@[k]).calendar_len >= game_length,
        decreases entries@.len() - i,
    {
        if entries[i].calendar_len < game_length {
            return Err(SubmissionError::CalendarTooShort);
        }
        i = i + 1;
    }
    let mut i: usize = 0;
    while i < entries.len()
        invariant
            0 <= i <= entries@.len(),
            forall|k: int| 0 <= k < entries@.len() ==> (#[trigger] entries@[k]).calendar_len == game_length,
            forall|k: int| 0 <= k < i ==> (#[trigger] entries@[k]).known_customer,
        decreases entries@.len() - i,
    {
        if !entries[i].known_customer {
            return Err(SubmissionError::UnknownCustomer);
        }
        i = i + 1;
    }
    let mut i: usize = 0;
    while i < entries.len()
        invariant
            0 <= i <= entries@.len(),
            forall|k: int| 0 <= k < entries@.len() ==> (#[trigger] entries@[k]).calendar_len == game_length,
            forall|k: int| 0 <= k < entries@.len() ==> (#[trigger] entries@[k]).known_customer,
            forall|k: int|
                0 <= k < i ==> (#[trigger] entries@[k]).months as int <= entries@[k].limit_multiplier as int * game_length as int,
        decreases entries@.len() - i,
    {
        let e = entries[i];
        if !duration_allowed(e.months, e.limit_multiplier, game_length) {
            return Err(SubmissionError::DurationTooLong);
        }
        i = i + 1;
    }
    Ok(())
}

/// The id a loaded award carries until ids are assigned: the largest `u8`.
pub fn non_zero_u8_max() -> (r: u8)
    ensures
        r == u8::MAX,
{
    u8::MAX
}

} // verus!
