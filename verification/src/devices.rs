//! The lists of sound devices and of the configurations they offer.
use crate::select::{selected, typed_number_selects};
use crate::text::{decimal_text, decimal_text_reads_back, decimal_value, push_decimal};
use vstd::prelude::*;

verus! {

/// A configuration that a device offers, as far as it is listed and chosen by.
#[derive(Debug, Clone, Copy, PartialEq, Eq, Structural)]
pub struct ConfigRange {
    /// Samples in each frame.
    pub channels: u16,
    /// Lowest rate, in frames each second.
    pub min_rate: u32,
    /// Highest rate.
    pub max_rate: u32,
    /// Samples are single-precision values.
    pub is_f32: bool,
}

/// Both ids are known and equal.
pub open spec fn same_id(a: Option<Seq<char>>, b: Option<Seq<char>>) -> bool {
    a is Some && a == b
}

/// What an id holds, where it is known.
pub open spec fn id_text(id: Option<String>) -> Option<Seq<char>> {
    match id {
        Some(text) => Some(text@),
        None => None,
    }
}

/// Whether a device is the default one: both ids are known and equal.
pub fn is_default_device(default_id: &Option<String>, id: &Option<String>) -> (r: bool)
    ensures
        r == (match (*default_id, *id) {
            (Some(a), Some(b)) => a@ == b@,
            _ => false,
        }),
        r == same_id(id_text(*default_id), id_text(*id)),
{
    match default_id {
        Some(a) => match id {
            Some(b) => *a == *b,
            None => false,
        },
        None => false,
    }
}

/// The text of one device in a list.
pub open spec fn device_text(number: nat, description: Seq<char>, is_default: bool) -> Seq<char> {
    "  ["@ + decimal_text(number) + "] "@ + description + (if is_default {
        " (default)"@
    } else {
        ""@
    })
}

/// The line of one device in a list.
pub fn device_line(number: usize, description: &str, is_default: bool) -> (r: String)
    ensures
        r@ == "  ["@ + decimal_text(number as nat) + "] "@ + description@ + (if is_default {
            " (default)"@
        } else {
            ""@
        }),
        r@ == device_text(number as nat, description@, is_default),
{
    let mut text: String = String::new();
    text.append("  [");
    push_decimal(&mut text, number as u64);
    text.append("] ");
    text.append(description);
    text.append(if is_default { " (default)" } else { "" });
    assert(text@ =~= "  ["@ + decimal_text(number as nat) + "] "@ + description@ + (
    if is_default {
        " (default)"@
    } else {
        ""@
    }));
    text
}

/// Those of `configs` that have single-precision samples, in their order.
pub open spec fn f32_only<T>(configs: Seq<(ConfigRange, T)>) -> Seq<(ConfigRange, T)> {
    configs.filter(|c: (ConfigRange, T)| c.0.is_f32)
}

/// Keeps the configurations of single-precision samples, in their order, each with
/// what the caller attached to it.
pub fn f32_configs<T>(configs: Vec<(ConfigRange, T)>) -> (r: Vec<(ConfigRange, T)>)
    ensures
        r@ == configs@.filter(|c: (ConfigRange, T)| c.0.is_f32),
        r@ == f32_only(configs@),
{
    let ghost keep = |c: (ConfigRange, T)| c.0.is_f32;
    let ghost all = configs@;
    let mut rest: Vec<(ConfigRange, T)> = configs;
    let mut kept: Vec<(ConfigRange, T)> = Vec::new();
    let ghost mut done: int = 0;
    assert(all.take(0).filter(keep) =~= Seq::empty()) by {
        reveal(Seq::filter);
    }
    assert(all.skip(0) =~= all);
    while !rest.is_empty()
        invariant
            keep == (|c: (ConfigRange, T)| c.0.is_f32),
            0 <= done <= all.len(),
            rest@ == all.skip(done),
            kept@ == all.take(done).filter(keep),
        decreases rest@.len(),
    {
        let config: (ConfigRange, T) = rest.remove(0);
        proof {
            reveal(Seq::filter);
            assert(all.take(done + 1).drop_last() =~= all.take(done));
            assert(rest@ =~= all.skip(done + 1));
            done = done + 1;
        }
        if config.0.is_f32 {
            kept.push(config);
        }
    }
    assert(all.take(done) =~= all);
    kept
}

/// The text of one configuration in a list.
pub open spec fn config_text(number: nat, config: ConfigRange) -> Seq<char> {
    "  ["@ + decimal_text(number) + "] channels="@ + decimal_text(config.channels as nat)
        + ", sample_rate="@ + decimal_text(config.min_rate as nat) + ".."@ + decimal_text(
        config.max_rate as nat,
    ) + ", sample_format=F32"@
}

/// The line of one configuration in a list of those that `f32_configs` keeps.
pub fn config_line(number: usize, config: &ConfigRange) -> (r: String)
    requires
        config.is_f32,
    ensures
        r@ == "  ["@ + decimal_text(number as nat) + "] channels="@ + decimal_text(
            config.channels as nat,
        ) + ", sample_rate="@ + decimal_text(config.min_rate as nat) + ".."@ + decimal_text(
            config.max_rate as nat,
        ) + ", sample_format=F32"@,
        r@ == config_text(number as nat, *config),
{
    let mut text: String = String::new();
    text.append("  [");
    push_decimal(&mut text, number as u64);
    text.append("] channels=");
    push_decimal(&mut text, config.channels as u64);
    text.append(", sample_rate=");
    push_decimal(&mut text, config.min_rate as u64);
    text.append("..");
    push_decimal(&mut text, config.max_rate as u64);
    text.append(", sample_format=F32");
    assert(text@ =~= "  ["@ + decimal_text(number as nat) + "] channels="@ + decimal_text(
        config.channels as nat,
    ) + ", sample_rate="@ + decimal_text(config.min_rate as nat) + ".."@ + decimal_text(
        config.max_rate as nat,
    ) + ", sample_format=F32"@);
    text
}

/// The number in front of a listed device is the one that selects it.
pub proof fn listed_number_selects_device(
    number: nat,
    count: nat,
    description: Seq<char>,
    is_default: bool,
)
    requires
        number < count,
    ensures
        exists|shown: nat, rest: Seq<char>|
            (#[trigger] ("  ["@ + decimal_text(shown) + "] "@ + rest)) == device_text(
                number,
                description,
                is_default,
            ) && selected(decimal_text(shown).push('\n'), count) == Some(number)
                && description.is_prefix_of(rest) && (rest == description <==> !is_default),
{
    reveal_strlit(" (default)");
    reveal_strlit("");
    let rest = description + (if is_default {
        " (default)"@
    } else {
        ""@
    });
    assert(("  ["@ + decimal_text(number) + "] "@ + rest) =~= device_text(
        number,
        description,
        is_default,
    ));
    assert(!is_default ==> rest =~= description);
    assert(is_default ==> rest.len() == description.len() + 10);
    typed_number_selects(number, count);
}

/// The line of a configuration tells it apart: the number in front is the one that selects
/// it, and the channels and the two rates read back from what is shown.
pub proof fn listed_number_selects_config(number: nat, count: nat, config: ConfigRange)
    requires
        number < count,
    ensures
        exists|shown: nat, channels: nat, low: nat, high: nat|
            "  ["@ + (#[trigger] decimal_text(shown)) + "] channels="@ + (
            #[trigger] decimal_text(channels)) + ", sample_rate="@ + (#[trigger] decimal_text(low))
                + ".."@ + (#[trigger] decimal_text(high)) + ", sample_format=F32"@ == config_text(
                number,
                config,
            ) && selected(decimal_text(shown).push('\n'), count) == Some(number) && decimal_value(
                decimal_text(channels),
            ) == Some(config.channels as nat) && decimal_value(decimal_text(low)) == Some(
                config.min_rate as nat,
            ) && decimal_value(decimal_text(high)) == Some(config.max_rate as nat),
{
    typed_number_selects(number, count);
    decimal_text_reads_back(config.channels as nat);
    decimal_text_reads_back(config.min_rate as nat);
    decimal_text_reads_back(config.max_rate as nat);
    assert("  ["@ + decimal_text(number) + "] channels="@ + decimal_text(config.channels as nat)
        + ", sample_rate="@ + decimal_text(config.min_rate as nat) + ".."@ + decimal_text(
        config.max_rate as nat,
    ) + ", sample_format=F32"@ == config_text(number, config));
}

/// A device is the default one by its id alone: itself always, another with the same id
/// too, none whose id is not known, and whichever of two is asked about.
pub proof fn default_device_goes_by_id(a: Option<Seq<char>>, b: Option<Seq<char>>)
    ensures
        same_id(a, b) == same_id(b, a),
        same_id(a, b) ==> a is Some && a == b,
        a is Some && a == b ==> same_id(a, b),
{
}

/// Every configuration is looked at for itself: one of single-precision samples is kept,
/// another is not, and lists kept one behind another are kept as one.
pub proof fn configs_are_kept_one_by_one<T>(
    a: Seq<(ConfigRange, T)>,
    b: Seq<(ConfigRange, T)>,
    config: (ConfigRange, T),
)
    ensures
        f32_only(a + b) == f32_only(a) + f32_only(b),
        f32_only(a.push(config)) == (if config.0.is_f32 {
            f32_only(a).push(config)
        } else {
            f32_only(a)
        }),
        f32_only(Seq::<(ConfigRange, T)>::empty()).len() == 0,
    decreases b.len(),
{
    reveal(Seq::filter);
    assert(a.push(config).drop_last() =~= a);
    if b.len() == 0 {
        assert(a + b =~= a);
        assert(f32_only(a) + f32_only(b) =~= f32_only(a));
    } else {
        configs_are_kept_one_by_one(a, b.drop_last(), config);
        assert((a + b).drop_last() =~= a + b.drop_last());
        assert(f32_only(a + b) =~= f32_only(a) + f32_only(b));
    }
}

} // verus!
