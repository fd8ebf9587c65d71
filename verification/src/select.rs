//! Picking an entry of a printed list, and the sample rate of a device.
use crate::text::{
    bounded_decimal, decimal_text, decimal_text_is_digits, decimal_text_reads_back, decimal_value,
    is_digit, is_white_space, parse_decimal, push_decimal, space_around_is_trimmed, trim, trimmed,
    typed_number_trims,
};
use vstd::prelude::*;

verus! {

/// Why nothing can be selected.
#[derive(Debug, Clone, Copy, PartialEq, Eq, Structural)]
pub enum SelectError {
    /// The list is empty.
    NoItems,
}

impl SelectError {
    /// What the user is told.
    pub fn message(&self) -> (r: &'static str)
        ensures
            r@ == "No items available to select"@,
    {
        match self {
            SelectError::NoItems => "No items available to select",
        }
    }
}

/// The text that asks for one of `count` entries.
pub open spec fn prompt_text(prompt: Seq<char>, count: nat) -> Seq<char> {
    prompt + " [0-"@ + decimal_text((count - 1) as nat) + "]: "@
}

/// The prompt that asks for one of `count` entries: their first and last number
/// follow `prompt`. Without an entry there is nothing to ask for.
pub fn select_prompt(prompt: &str, count: usize) -> (r: Result<String, SelectError>)
    ensures
        match r {
            Ok(text) => count > 0 && text@ == prompt@ + " [0-"@ + decimal_text((count - 1) as nat)
                + "]: "@,
            Err(e) => count == 0 && e == SelectError::NoItems,
        },
        r matches Ok(text) ==> text@ == prompt_text(prompt@, count as nat),
{
    if count == 0 {
        return Err(SelectError::NoItems);
    }
    let mut text: String = String::new();
    text.append(prompt);
    text.append(" [0-");
    push_decimal(&mut text, (count - 1) as u64);
    text.append("]: ");
    assert(text@ =~= prompt@ + " [0-"@ + decimal_text((count - 1) as nat) + "]: "@);
    Ok(text)
}

/// The entry that `line` names in a list of `count`: its number in decimal, with
/// white space around it at most.
pub open spec fn selected(line: Seq<char>, count: nat) -> Option<nat> {
    match crate::text::decimal_value(trimmed(line)) {
        Some(v) => if v < count {
            Some(v)
        } else {
            None
        },
        None => None,
    }
}

/// The number of the entry that `line` names, if it names one of `count`.
pub fn selected_index(line: &str, count: usize) -> (r: Option<usize>)
    ensures
        selected(line@, count as nat) == (match r {
            Some(i) => Some(i as nat),
            None => None,
        }),
{
    match parse_decimal(trim(line), usize::MAX as u64) {
        Some(v) => {
            let i: usize = v as usize;
            if i < count {
                Some(i)
            } else {
                None
            }
        },
        None => None,
    }
}

/// The entry of `items` that a line names, if it names one.
pub open spec fn item_named<T>(items: Seq<T>, line: Seq<char>) -> Option<T> {
    match selected(line, items.len()) {
        Some(i) => Some(items[i as int]),
        None => None,
    }
}

/// The entry of `items` that `line` names. Without one the line is asked for again.
pub fn select_item<'a, T>(items: &'a [T], line: &str) -> (r: Option<&'a T>)
    ensures
        match selected(line@, items@.len()) {
            Some(i) => r == Some(&items@[i as int]),
            None => r is None,
        },
        match item_named(items@, line@) {
            Some(item) => r == Some(&item),
            None => r is None,
        },
{
    match selected_index(line, items.len()) {
        Some(i) => Some(&items[i]),
        None => None,
    }
}

/// What the user is told of a line that names no entry.
pub fn invalid_selection_message() -> (r: &'static str)
    ensures
        r@ == "Invalid selection, try again."@,
{
    "Invalid selection, try again."
}

/// Typing the number of an entry selects that entry, and the number of no entry
/// selects nothing.
pub proof fn typed_number_selects(n: nat, count: nat)
    ensures
        n < count ==> selected(decimal_text(n).push('\n'), count) == Some(n),
        n >= count ==> selected(decimal_text(n).push('\n'), count) is None,
{
    typed_number_trims(n);
    decimal_text_reads_back(n);
}

/// The rates tried first, in this order: those that the codec works at.
pub open spec fn preferred_rates() -> Seq<u32> {
    seq![48000u32, 24000, 16000, 12000, 8000]
}

/// How the rate of a device is settled.
#[derive(Debug, Clone, Copy, PartialEq, Eq, Structural)]
pub enum RateChoice {
    /// The device has this rate only.
    Only(u32),
    /// The first preferred rate that the device offers.
    Preferred(u32),
    /// The user is asked for a rate.
    Ask,
}

/// `choice` is how the rate of a device is settled that offers those from `min` to `max`.
pub open spec fn rate_settled(min: u32, max: u32, choice: RateChoice) -> bool {
    match choice {
        RateChoice::Only(rate) => min == max && rate == min,
        RateChoice::Preferred(rate) => {
            &&& min != max
            &&& min <= rate <= max
            &&& exists|i: int|
                #![trigger preferred_rates()[i]]
                {
                    &&& 0 <= i < preferred_rates().len()
                    &&& preferred_rates()[i] == rate
                    &&& forall|j: int|
                        0 <= j < i ==> !(min <= #[trigger] preferred_rates()[j] <= max)
                }
        },
        RateChoice::Ask => {
            &&& min != max
            &&& forall|j: int|
                0 <= j < preferred_rates().len() ==> !(min <= #[trigger] preferred_rates()[j]
                    <= max)
        },
    }
}

/// Settles the rate of a device that offers those from `min` to `max`.
pub fn pick_sample_rate(min: u32, max: u32) -> (r: RateChoice)
    ensures
        match r {
            RateChoice::Only(rate) => min == max && rate == min,
            RateChoice::Preferred(rate) => {
                &&& min != max
                &&& min <= rate <= max
                &&& exists|i: int|
                    #![trigger preferred_rates()[i]]
                    {
                        &&& 0 <= i < preferred_rates().len()
                        &&& preferred_rates()[i] == rate
                        &&& forall|j: int|
                            0 <= j < i ==> !(min <= #[trigger] preferred_rates()[j] <= max)
                    }
            },
            RateChoice::Ask => {
                &&& min != max
                &&& forall|j: int|
                    0 <= j < preferred_rates().len() ==> !(min
                        <= #[trigger] preferred_rates()[j] <= max)
            },
        },
        rate_settled(min, max, r),
{
    if min == max {
        return RateChoice::Only(min);
    }
    let preferred: [u32; 5] = [48000, 24000, 16000, 12000, 8000];
    assert(preferred@ =~= preferred_rates());
    let mut i: usize = 0;
    while i < 5
        invariant
            i <= 5,
            min != max,
            preferred@ == preferred_rates(),
            forall|j: int| 0 <= j < i ==> !(min <= #[trigger] preferred_rates()[j] <= max),
        decreases 5 - i,
    {
        let rate: u32 = preferred[i];
        assert(preferred_rates()[i as int] == rate);
        if rate >= min && rate <= max {
            return RateChoice::Preferred(rate);
        }
        i = i + 1;
    }
    RateChoice::Ask
}

/// The rate that `line` names, if it lies from `min` to `max`.
pub open spec fn rate_named(line: Seq<char>, min: nat, max: nat) -> Option<nat> {
    match bounded_decimal(trimmed(line), max) {
        Some(v) => if v >= min {
            Some(v)
        } else {
            None
        },
        None => None,
    }
}

/// The rate that the user typed, if the device offers it. Without one the line is
/// asked for again.
pub fn entered_rate(line: &str, min: u32, max: u32) -> (r: Option<u32>)
    ensures
        rate_named(line@, min as nat, max as nat) == (match r {
            Some(rate) => Some(rate as nat),
            None => None,
        }),
{
    match parse_decimal(trim(line), max as u64) {
        Some(v) => {
            let rate: u32 = v as u32;
            if rate >= min {
                Some(rate)
            } else {
                None
            }
        },
        None => None,
    }
}

/// What the user is told of a line that names no rate of the device.
pub fn invalid_rate_message() -> (r: &'static str)
    ensures
        r@ == "Invalid sample rate, try again."@,
{
    "Invalid sample rate, try again."
}

/// The text that asks for a rate.
pub open spec fn rate_prompt_text(min: nat, max: nat) -> Seq<char> {
    "Enter sample rate ("@ + decimal_text(min) + "-"@ + decimal_text(max) + "): "@
}

/// The prompt that asks for a rate from `min` to `max`.
pub fn rate_prompt(min: u32, max: u32) -> (r: String)
    ensures
        r@ == "Enter sample rate ("@ + decimal_text(min as nat) + "-"@ + decimal_text(max as nat)
            + "): "@,
        r@ == rate_prompt_text(min as nat, max as nat),
{
    let mut text: String = String::new();
    text.append("Enter sample rate (");
    push_decimal(&mut text, min as u64);
    text.append("-");
    push_decimal(&mut text, max as u64);
    text.append("): ");
    assert(text@ =~= "Enter sample rate ("@ + decimal_text(min as nat) + "-"@ + decimal_text(
        max as nat,
    ) + "): "@);
    text
}

/// The text that tells of a rate.
pub open spec fn notice_text(rate: nat) -> Seq<char> {
    "Auto-selected sample rate: "@ + decimal_text(rate)
}

/// What the user is told of a rate that was settled without asking.
pub fn rate_notice(rate: u32) -> (r: String)
    ensures
        r@ == "Auto-selected sample rate: "@ + decimal_text(rate as nat),
        r@ == notice_text(rate as nat),
{
    let mut text: String = String::new();
    text.append("Auto-selected sample rate: ");
    push_decimal(&mut text, rate as u64);
    assert(text@ =~= "Auto-selected sample rate: "@ + decimal_text(rate as nat));
    text
}

/// Every rate that the prompt accepts lies in the range that it shows.
pub proof fn entered_rate_in_range(line: Seq<char>, min: nat, max: nat)
    ensures
        rate_named(line, min, max) matches Some(v) ==> min <= v <= max,
{
}

/// Typing a rate of the shown range is accepted.
pub proof fn typed_rate_accepted(rate: nat, min: nat, max: nat)
    requires
        min <= rate <= max,
    ensures
        rate_named(decimal_text(rate).push('\n'), min, max) == Some(rate),
{
    typed_number_trims(rate);
    decimal_text_reads_back(rate);
}

/// White space around what is typed makes no difference: it selects what the rest selects,
/// the entry of that number where there is one, and nothing where the rest writes no
/// number.
pub proof fn space_around_selects_the_same(
    a: Seq<char>,
    core: Seq<char>,
    b: Seq<char>,
    count: nat,
)
    requires
        forall|i: int| 0 <= i < a.len() ==> is_white_space(#[trigger] a[i]),
        forall|i: int| 0 <= i < b.len() ==> is_white_space(#[trigger] b[i]),
        core.len() > 0 ==> !is_white_space(core.first()) && !is_white_space(core.last()),
    ensures
        match decimal_value(core) {
            Some(v) => selected(a + core + b, count) == (if v < count {
                Some(v)
            } else {
                None
            }),
            None => selected(a + core + b, count) is None,
        },
{
    space_around_is_trimmed(a, core, b);
}

/// The number of an entry selects that entry, and the number of no entry selects nothing,
/// with any white space around it; so however the line ends.
pub proof fn spaced_number_selects(a: Seq<char>, n: nat, b: Seq<char>, count: nat)
    requires
        forall|i: int| 0 <= i < a.len() ==> is_white_space(#[trigger] a[i]),
        forall|i: int| 0 <= i < b.len() ==> is_white_space(#[trigger] b[i]),
    ensures
        selected(a + decimal_text(n) + b, count) == (if n < count {
            Some(n)
        } else {
            None
        }),
        selected(decimal_text(n) + seq!['\r', '\n'], count) == (if n < count {
            Some(n)
        } else {
            None
        }),
{
    let s = decimal_text(n);
    decimal_text_is_digits(n);
    decimal_text_reads_back(n);
    assert(is_digit(s[0]) && is_digit(s[s.len() - 1]));
    space_around_selects_the_same(a, s, b, count);
    let none = Seq::<char>::empty();
    space_around_selects_the_same(none, s, seq!['\r', '\n'], count);
    assert(none + s + seq!['\r', '\n'] =~= s + seq!['\r', '\n']);
}

/// White space around what is typed makes no difference: it names the rate that the rest
/// writes, where the device offers it, and none elsewhere.
pub proof fn space_around_names_the_same_rate(
    a: Seq<char>,
    core: Seq<char>,
    b: Seq<char>,
    min: nat,
    max: nat,
)
    requires
        forall|i: int| 0 <= i < a.len() ==> is_white_space(#[trigger] a[i]),
        forall|i: int| 0 <= i < b.len() ==> is_white_space(#[trigger] b[i]),
        core.len() > 0 ==> !is_white_space(core.first()) && !is_white_space(core.last()),
    ensures
        match decimal_value(core) {
            Some(v) => rate_named(a + core + b, min, max) == (if min <= v <= max {
                Some(v)
            } else {
                None
            }),
            None => rate_named(a + core + b, min, max) is None,
        },
{
    space_around_is_trimmed(a, core, b);
}

/// A rate is taken where the device offers it, and only there, with any white space around
/// it; so however the line ends.
pub proof fn spaced_rate_is_taken(a: Seq<char>, rate: nat, b: Seq<char>, min: nat, max: nat)
    requires
        forall|i: int| 0 <= i < a.len() ==> is_white_space(#[trigger] a[i]),
        forall|i: int| 0 <= i < b.len() ==> is_white_space(#[trigger] b[i]),
    ensures
        rate_named(a + decimal_text(rate) + b, min, max) == (if min <= rate <= max {
            Some(rate)
        } else {
            None
        }),
        rate_named(decimal_text(rate) + seq!['\r', '\n'], min, max) == (if min <= rate <= max {
            Some(rate)
        } else {
            None
        }),
{
    let s = decimal_text(rate);
    decimal_text_is_digits(rate);
    decimal_text_reads_back(rate);
    assert(is_digit(s[0]) && is_digit(s[s.len() - 1]));
    space_around_names_the_same_rate(a, s, b, min, max);
    let none = Seq::<char>::empty();
    space_around_names_the_same_rate(none, s, seq!['\r', '\n'], min, max);
    assert(none + s + seq!['\r', '\n'] =~= s + seq!['\r', '\n']);
}

/// The prompt promises what is then accepted: the two numbers that it shows for `count`
/// entries can be typed, and every number between them, and none behind the last.
pub proof fn prompt_shows_what_is_accepted(prompt: Seq<char>, count: nat, n: nat)
    requires
        count > 0,
    ensures
        exists|last: nat|
            prompt + " [0-"@ + (#[trigger] decimal_text(last)) + "]: "@ == prompt_text(
                prompt,
                count,
            ) && (n <= last <==> selected(decimal_text(n).push('\n'), count) == Some(n)),
{
    typed_number_selects(n, count);
    let last = (count - 1) as nat;
    assert(prompt + " [0-"@ + decimal_text(last) + "]: "@ == prompt_text(prompt, count));
}

/// The prompt promises what is then accepted: a rate is taken exactly where it lies between
/// the two that are shown.
pub proof fn rate_prompt_shows_what_is_accepted(min: nat, max: nat, rate: nat)
    ensures
        exists|low: nat, high: nat|
            "Enter sample rate ("@ + (#[trigger] decimal_text(low)) + "-"@ + (
            #[trigger] decimal_text(high)) + "): "@ == rate_prompt_text(min, max) && (low <= rate
                <= high <==> rate_named(
                decimal_text(rate).push('\n'),
                min,
                max,
            ) == Some(rate)),
{
    assert(("Enter sample rate ("@ + decimal_text(min) + "-"@ + decimal_text(max) + "): "@)
        == rate_prompt_text(min, max));
    typed_number_trims(rate);
    decimal_text_reads_back(rate);
}

/// The rate that is settled without asking is the highest that both the codec and the
/// device work at. The user is asked only where there is no such rate, and a device with
/// one rate keeps it.
pub proof fn highest_common_rate_is_taken(min: u32, max: u32, choice: RateChoice, rate: u32)
    requires
        rate_settled(min, max, choice),
    ensures
        choice is Only <==> min == max,
        choice matches RateChoice::Only(taken) ==> taken == min,
        choice matches RateChoice::Preferred(taken) ==> {
            &&& min <= taken <= max
            &&& taken == 48000 || taken == 24000 || taken == 16000 || taken == 12000 || taken
                == 8000
        },
        (rate == 48000 || rate == 24000 || rate == 16000 || rate == 12000 || rate == 8000) && min
            <= rate <= max && min != max ==> (choice matches RateChoice::Preferred(taken) && taken
            >= rate),
{
    let all = preferred_rates();
    assert(all[0] == 48000 && all[1] == 24000 && all[2] == 16000 && all[3] == 12000 && all[4]
        == 8000);
}

/// The entry that is taken is the one at the number typed, with any white space around it,
/// whatever the list holds; a number behind the list takes nothing, and entries that follow
/// make no difference to one that is taken.
pub proof fn typed_number_takes_its_entry<T>(
    items: Seq<T>,
    more: Seq<T>,
    a: Seq<char>,
    n: nat,
    b: Seq<char>,
)
    requires
        forall|i: int| 0 <= i < a.len() ==> is_white_space(#[trigger] a[i]),
        forall|i: int| 0 <= i < b.len() ==> is_white_space(#[trigger] b[i]),
    ensures
        n < items.len() ==> item_named(items, a + decimal_text(n) + b) == Some(items[n as int]),
        n >= items.len() ==> item_named(items, a + decimal_text(n) + b) is None,
        n < items.len() ==> item_named(items + more, a + decimal_text(n) + b) == Some(
            items[n as int],
        ),
{
    spaced_number_selects(a, n, b, items.len());
    spaced_number_selects(a, n, b, (items + more).len());
}

/// A line that writes no number takes nothing from any list.
pub proof fn other_lines_take_nothing<T>(
    items: Seq<T>,
    a: Seq<char>,
    core: Seq<char>,
    b: Seq<char>,
)
    requires
        forall|i: int| 0 <= i < a.len() ==> is_white_space(#[trigger] a[i]),
        forall|i: int| 0 <= i < b.len() ==> is_white_space(#[trigger] b[i]),
        core.len() > 0 ==> !is_white_space(core.first()) && !is_white_space(core.last()),
        decimal_value(core) is None,
    ensures
        item_named(items, a + core + b) is None,
{
    space_around_selects_the_same(a, core, b, items.len());
}

/// The rate that the user is told of reads back as the rate that was settled.
pub proof fn notice_shows_the_rate(rate: nat)
    ensures
        exists|shown: nat|
            "Auto-selected sample rate: "@ + (#[trigger] decimal_text(shown)) == notice_text(rate)
                && decimal_value(decimal_text(shown)) == Some(rate),
{
    decimal_text_reads_back(rate);
    assert("Auto-selected sample rate: "@ + decimal_text(rate) == notice_text(rate));
}

} // verus!
