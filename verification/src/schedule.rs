//! How much is trained: settings, numbers of batches and epochs, and when a run
//! is evaluated.

use vstd::arithmetic::div_mod::{lemma_fundamental_div_mod, lemma_fundamental_div_mod_converse};
use vstd::prelude::*;

use crate::text::{
    decimal, law_decimal_digits_stand_for_the_number, law_signs_are_read,
    parse_usize, unsigned_value,
};

verus! {

/// How many examples a batch has.
pub const BATCH_SIZE: usize = 32;

/// How many updates the first training makes, unless set otherwise.
pub const DEFAULT_ITERATIONS: usize = 20000;

/// How often the first training sees its examples, unless set otherwise.
pub const DEFAULT_EPOCHS: usize = 1;

/// How many updates the training on chats aims at.
pub const SFT_UPDATES: usize = 1500;

/// How many times the training on problems generates samples.
pub const GRPO_ITERATIONS: usize = 500;

/// After how many iterations the training on problems is evaluated again.
pub const EVAL_INTERVAL: usize = 10;

/// How many samples are generated for each problem.
pub const GROUP_SIZE: usize = 8;

/// How many updates are made with each lot of samples.
pub const UPDATES_PER_GENERATION: usize = 2;

/// How many times `b` has to be taken to reach `a`.
pub open spec fn ceil_div(a: int, b: int) -> int {
    (a + b - 1) / b
}

/// The quotient, rounded up, is the least multiple that is enough.
pub proof fn lemma_ceil_div(a: int, b: int)
    requires
        0 <= a,
        0 < b,
    ensures
        ceil_div(a, b) * b >= a,
        (ceil_div(a, b) - 1) * b < a,
        0 <= ceil_div(a, b) <= a,
        a > 0 ==> ceil_div(a, b) > 0,
        ceil_div(a, b) == a / b + if a % b > 0 {
            1int
        } else {
            0
        },
{
    let q = a / b;
    let r = a % b;
    lemma_fundamental_div_mod(a, b);
    vstd::arithmetic::div_mod::lemma_mod_bound(a, b);
    vstd::arithmetic::div_mod::lemma_div_pos_is_pos(a, b);
    assert(b * q == q * b) by (nonlinear_arith);
    assert((q + 1) * b == q * b + b) by (nonlinear_arith);
    assert((q - 1) * b == q * b - b) by (nonlinear_arith);
    if r > 0 {
        lemma_fundamental_div_mod_converse(a + b - 1, b, q + 1, r - 1);
    } else {
        lemma_fundamental_div_mod_converse(a + b - 1, b, q, b - 1);
    }
    assert(q <= q * b) by (nonlinear_arith)
        requires
            q >= 0,
            b >= 1,
    ;
}

/// The quotient, rounded up.
pub fn div_ceil(a: usize, b: usize) -> (quotient: usize)
    requires
        b > 0,
    ensures
        quotient == ceil_div(a as int, b as int),
{
    proof {
        lemma_ceil_div(a as int, b as int);
    }
    let quotient: usize = a / b;
    if a % b > 0 {
        quotient + 1
    } else {
        quotient
    }
}

/// The number that a text stands for, if it is one that fits.
pub open spec fn number(text: Seq<char>) -> Option<usize> {
    match unsigned_value(text) {
        Some(n) if n <= usize::MAX => Some(n as usize),
        _ => None,
    }
}

/// A setting: the number that was given, or a default where nothing or no number
/// was.
pub open spec fn setting_value(value: Option<&str>, default: usize) -> usize {
    match value {
        Some(text) => match number(text@) {
            Some(n) => n,
            None => default,
        },
        None => default,
    }
}

/// A setting: the number that was given, or a default where nothing or no number
/// was.
pub fn setting(value: Option<&str>, default: usize) -> (chosen: usize)
    ensures
        chosen == setting_value(value, default),
{
    match value {
        Some(text) => match parse_usize(text) {
            Some(n) => n,
            None => default,
        },
        None => default,
    }
}

/// The smaller of two.
pub open spec fn smaller(a: int, b: int) -> int {
    if a <= b {
        a
    } else {
        b
    }
}

/// How many of `len` examples are used: as many as were asked for, else enough for
/// the given number of batches, and never more than there are. A request that is
/// no number asks for all.
pub fn max_items(
    value: Option<&str>,
    batch_size: usize,
    iterations: usize,
    len: usize,
) -> (items: usize)
    ensures
        items == match value {
            Some(text) => match number(text@) {
                Some(n) => smaller(n as int, len as int),
                None => len as int,
            },
            None => smaller(batch_size * iterations, len as int),
        },
        items <= len,
        items < len ==> match value {
            Some(text) => number(text@) == Some(items),
            None => items == batch_size * iterations,
        },
        items == len ==> match value {
            Some(text) => number(text@) matches Some(n) ==> n >= len,
            None => batch_size * iterations >= len,
        },
{
    let wanted: usize = match value {
        Some(text) => match parse_usize(text) {
            Some(n) => n,
            None => len,
        },
        None => match batch_size.checked_mul(iterations) {
            Some(n) => n,
            None => len,
        },
    };
    if wanted <= len {
        wanted
    } else {
        len
    }
}

/// How often the training on chats has to see its examples to make the updates
/// that it aims at, one for each batch.
pub fn sft_epochs(items: usize) -> (epochs: usize)
    requires
        items > 0,
    ensures
        epochs == ceil_div(SFT_UPDATES as int, ceil_div(items as int, BATCH_SIZE as int)),
{
    proof {
        lemma_ceil_div(items as int, BATCH_SIZE as int);
    }
    let batches: usize = div_ceil(items, BATCH_SIZE);
    div_ceil(SFT_UPDATES, batches)
}

/// The training on chats makes at least the updates that it aims at, and would
/// not with one epoch less.
pub proof fn law_epochs_are_just_enough(items: int)
    requires
        items > 0,
    ensures
        ({
            let batches = ceil_div(items, BATCH_SIZE as int);
            let epochs = ceil_div(SFT_UPDATES as int, batches);
            epochs * batches >= SFT_UPDATES && (epochs - 1) * batches < SFT_UPDATES
        }),
{
    let batches = ceil_div(items, BATCH_SIZE as int);
    lemma_ceil_div(items, BATCH_SIZE as int);
    lemma_ceil_div(SFT_UPDATES as int, batches);
}

/// What an iteration of the training on problems does besides learning.
#[derive(Clone, Copy, Debug, PartialEq, Eq, Structural)]
pub enum GrpoStep {
    /// Learn from new samples.
    Learn,
    /// Learn from new samples, then evaluate.
    LearnAndEvaluate,
    /// Stop.
    Stop,
}

/// What the training on problems does in an iteration: it is evaluated in the
/// first and in every tenth after it, and stops when all were made.
pub fn grpo_step(iteration: usize) -> (step: GrpoStep)
    ensures
        step == GrpoStep::Stop <==> iteration >= GRPO_ITERATIONS,
        step == GrpoStep::LearnAndEvaluate <==> iteration < GRPO_ITERATIONS && iteration
            % EVAL_INTERVAL == 0,
{
    if iteration >= GRPO_ITERATIONS {
        GrpoStep::Stop
    } else if iteration % EVAL_INTERVAL == 0 {
        GrpoStep::LearnAndEvaluate
    } else {
        GrpoStep::Learn
    }
}

/// A setting that is written in decimal is that number where it fits, and the default
/// where it is too large. What is no number is the default too.
pub proof fn law_setting_is_the_number_that_was_given(text: &str, n: nat, default: usize)
    ensures
        text@ == decimal(n) ==> setting_value(Some(text), default) == if n <= usize::MAX {
            n as usize
        } else {
            default
        },
        unsigned_value(text@) is None ==> setting_value(Some(text), default) == default,
        setting_value(None, default) == default,
        unsigned_value(text@) matches Some(value) ==> 0 <= value <= usize::MAX ==> setting_value(
            Some(text),
            default,
        ) == value,
        number(decimal(n)) == if n <= usize::MAX {
            Some(n as usize)
        } else {
            None
        },
{
    law_decimal_digits_stand_for_the_number(n);
    law_signs_are_read(decimal(n));
}

/// The epochs that are made are just enough: with one batch for each update, no update
/// that was aimed at is missing, and one epoch less would leave some out.
pub proof fn law_chats_are_seen_often_enough(items: usize, batches: int, epochs: usize)
    requires
        items > 0,
        call_ensures(sft_epochs, (items,), epochs),
        32 * (batches - 1) < items <= 32 * batches,
    ensures
        epochs * batches >= 1500,
        (epochs - 1) * batches < 1500,
{
    lemma_ceil_div(items as int, 32);
    assert(ceil_div(items as int, 32) == batches);
    lemma_ceil_div(1500, batches);
}

/// Of fewer examples no more are used than of many, and as many as were used of many as
/// far as there are any.
pub proof fn law_fewer_examples_change_only_what_is_missing(
    value: Option<&str>,
    batch_size: usize,
    iterations: usize,
    few: usize,
    many: usize,
    used_of_few: usize,
    used_of_many: usize,
)
    requires
        few <= many,
        call_ensures(max_items, (value, batch_size, iterations, few), used_of_few),
        call_ensures(max_items, (value, batch_size, iterations, many), used_of_many),
    ensures
        used_of_many <= few ==> used_of_few == used_of_many,
        used_of_many > few ==> used_of_few == few,
        value is None && used_of_many < many ==> used_of_many == batch_size * iterations,
        value is None && batch_size * iterations <= many ==> used_of_many == batch_size
            * iterations,
{
}

/// The training on problems makes five hundred iterations and is evaluated in the first
/// of every ten.
pub proof fn law_every_tenth_iteration_is_evaluated(
    tens: int,
    rest: int,
    iteration: usize,
    step: GrpoStep,
)
    requires
        call_ensures(grpo_step, (iteration,), step),
        iteration == 10 * tens + rest,
        0 <= rest < 10,
    ensures
        step == GrpoStep::Stop <==> iteration >= 500,
        step == GrpoStep::LearnAndEvaluate <==> iteration < 500 && rest == 0,
        step == GrpoStep::Learn <==> iteration < 500 && rest > 0,
{
}

} // verus!
