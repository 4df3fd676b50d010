//! The plan of a benchmark: which tools sit out a fixture for its size, how many warmup and
//! measured rounds each fixture gets, the shuffled order in which each round runs the tools,
//! the command line that runs a tool on a fixture, and which exit codes count as success.
use vstd::prelude::*;
use vstd::string::{StringExecFns, StringSliceAdditionalSpecFns};

use crate::text::chars_of;

verus! {

/// The base of the seeds of warmup rounds.
pub const WARMUP_SEED: u64 = 0x9e37_79b9;

/// The base of the seeds of measured rounds.
pub const MEASURED_SEED: u64 = 0xd1b5_4a32_d192_ed03;

/// Whether a tool with the size limit `limit` sits out a fixture of `bytes` bytes: it does when
/// it has a limit and the fixture is larger.
pub open spec fn sits_out(limit: Option<u64>, bytes: u64) -> bool {
    match limit {
        Some(maximum) => bytes > maximum,
        None => false,
    }
}

/// Decides whether a tool with the size limit `limit` sits out a fixture of `bytes` bytes.
pub fn excluded_by_size(limit: Option<u64>, bytes: u64) -> (r: bool)
    ensures
        r == sits_out(limit, bytes),
{
    match limit {
        Some(maximum) => bytes > maximum,
        None => false,
    }
}

/// The number of warmup and of measured rounds of a fixture: a smoke run skips the warmups and
/// measures once.
pub fn round_counts(smoke: bool, warmups: usize, runs: usize) -> (r: (usize, usize))
    ensures
        r == (if smoke {
            (0usize, 1usize)
        } else {
            (warmups, runs)
        }),
{
    if smoke {
        (0, 1)
    } else {
        (warmups, runs)
    }
}

/// The seed of a round of a fixture: the warmup or measured base, mixed with the fixture's
/// position and the round's number.
pub open spec fn round_seed(measured: bool, fixture_index: u64, round: u64) -> u64 {
    (if measured {
        MEASURED_SEED
    } else {
        WARMUP_SEED
    }) ^ fixture_index ^ round
}

/// The seed of a round, for the fixture at `fixture_index`.
pub fn seed_of_round(measured: bool, fixture_index: u64, round: u64) -> (r: u64)
    ensures
        r == round_seed(measured, fixture_index, round),
{
    let base: u64 = if measured {
        MEASURED_SEED
    } else {
        WARMUP_SEED
    };
    base ^ fixture_index ^ round
}

/// The positions of the tools, by their size limits, that sit out (`out`) or run on (`!out`) a
/// fixture of `bytes` bytes, in the order the tools are given.
pub open spec fn tools_where(limits: Seq<Option<u64>>, bytes: u64, out: bool) -> Seq<usize>
    decreases limits.len(),
{
    if limits.len() == 0 {
        seq![]
    } else {
        let prior = tools_where(limits.drop_last(), bytes, out);
        if sits_out(limits.last(), bytes) == out {
            prior.push((limits.len() - 1) as usize)
        } else {
            prior
        }
    }
}

/// Splits the tools, given by their size limits, into those that sit out a fixture of `bytes`
/// bytes and those that run on it, each in the order the tools are given.
pub fn split_by_size(limits: &Vec<Option<u64>>, bytes: u64) -> (r: (Vec<usize>, Vec<usize>))
    ensures
        r.0@ == tools_where(limits@, bytes, true),
        r.1@ == tools_where(limits@, bytes, false),
{
    let mut excluded: Vec<usize> = Vec::new();
    let mut active: Vec<usize> = Vec::new();
    let mut i: usize = 0;
    while i < limits.len()
        invariant
            i <= limits@.len(),
            excluded@ == tools_where(limits@.take(i as int), bytes, true),
            active@ == tools_where(limits@.take(i as int), bytes, false),
        decreases limits@.len() - i,
    {
        assert(limits@.take(i + 1).drop_last() =~= limits@.take(i as int));
        if excluded_by_size(limits[i], bytes) {
            excluded.push(i);
        } else {
            active.push(i);
        }
        i = i + 1;
    }
    assert(limits@.take(i as int) =~= limits@);
    (excluded, active)
}

/// The positions that `tools_where` lists: each position whose tool falls on the asked side,
/// once, in increasing order.
proof fn lemma_tools_where(limits: Seq<Option<u64>>, bytes: u64, out: bool)
    requires
        limits.len() <= usize::MAX,
    ensures
        forall|k: int|
            0 <= k < tools_where(limits, bytes, out).len() ==> #[trigger] tools_where(
                limits,
                bytes,
                out,
            )[k] < limits.len(),
        forall|i: int|
            0 <= i < limits.len() ==> (tools_where(limits, bytes, out).contains(i as usize)
                <==> sits_out(#[trigger] limits[i], bytes) == out),
        forall|a: int, b: int|
            0 <= a < b < tools_where(limits, bytes, out).len() ==> #[trigger] tools_where(
                limits,
                bytes,
                out,
            )[a] < #[trigger] tools_where(limits, bytes, out)[b],
    decreases limits.len(),
{
    if limits.len() > 0 {
        let rest = limits.drop_last();
        lemma_tools_where(rest, bytes, out);
        let last = (limits.len() - 1) as usize;
        let prior = tools_where(rest, bytes, out);
        let now = tools_where(limits, bytes, out);
        assert forall|i: int| 0 <= i < limits.len() implies (now.contains(i as usize) <==> sits_out(
            #[trigger] limits[i],
            bytes,
        ) == out) by {
            if i < limits.len() - 1 {
                assert(rest[i] == limits[i]);
                if now.contains(i as usize) && !prior.contains(i as usize) {
                    let k = choose|k: int| 0 <= k < now.len() && now[k] == i as usize;
                    assert(k == now.len() - 1);
                }
                if prior.contains(i as usize) {
                    let k = choose|k: int| 0 <= k < prior.len() && prior[k] == i as usize;
                    assert(now[k] == i as usize);
                }
            } else {
                if sits_out(limits.last(), bytes) == out {
                    assert(now[now.len() - 1] == last);
                } else {
                    if prior.contains(last) {
                        let k = choose|k: int| 0 <= k < prior.len() && prior[k] == last;
                        assert(prior[k] < rest.len());
                    }
                }
            }
        }
    }
}

/// One more tool adds one position to exactly one of the two lists.
proof fn lemma_tools_where_lengths(limits: Seq<Option<u64>>, bytes: u64)
    ensures
        tools_where(limits, bytes, true).len() + tools_where(limits, bytes, false).len()
            == limits.len(),
    decreases limits.len(),
{
    if limits.len() > 0 {
        lemma_tools_where_lengths(limits.drop_last(), bytes);
    }
}

/// Every tool either sits out a fixture or runs on it, never both: the two lists hold each
/// position once, in increasing order, on the side its size limit decides.
pub proof fn law_split_by_size_partitions(limits: Seq<Option<u64>>, bytes: u64)
    requires
        limits.len() <= usize::MAX,
    ensures
        tools_where(limits, bytes, true).len() + tools_where(limits, bytes, false).len()
            == limits.len(),
        forall|i: int|
            0 <= i < limits.len() ==> (tools_where(limits, bytes, true).contains(i as usize)
                <==> sits_out(#[trigger] limits[i], bytes)),
        forall|i: int|
            0 <= i < limits.len() ==> (tools_where(limits, bytes, false).contains(i as usize)
                <==> !sits_out(#[trigger] limits[i], bytes)),
        forall|a: int, b: int|
            0 <= a < b < tools_where(limits, bytes, true).len() ==> #[trigger] tools_where(
                limits,
                bytes,
                true,
            )[a] < #[trigger] tools_where(limits, bytes, true)[b],
        forall|a: int, b: int|
            0 <= a < b < tools_where(limits, bytes, false).len() ==> #[trigger] tools_where(
                limits,
                bytes,
                false,
            )[a] < #[trigger] tools_where(limits, bytes, false)[b],
{
    lemma_tools_where(limits, bytes, true);
    lemma_tools_where(limits, bytes, false);
    lemma_tools_where_lengths(limits, bytes);
}

/// One step of the xorshift generator that orders the tools of a benchmark round.
pub open spec fn xorshift(state: u64) -> u64 {
    let a: u64 = state ^ (state << 13u64);
    let b: u64 = a ^ (a >> 7u64);
    b ^ (b << 17u64)
}

/// Fisher-Yates from `index` down to 1: each step swaps `index` with a position drawn from the
/// next state of the generator.
pub open spec fn shuffle_down(values: Seq<usize>, index: int, state: u64) -> Seq<usize>
    decreases index,
{
    if index < 1 || index >= values.len() {
        values
    } else {
        let next = xorshift(state);
        let j: int = ((next as usize) % ((index + 1) as usize)) as int;
        shuffle_down(values.update(index, values[j]).update(j, values[index]), index - 1, next)
    }
}

/// The indices `0..length` in the order that `shuffle_down` gives them from `state`.
pub open spec fn shuffled(length: nat, state: u64) -> Seq<usize> {
    shuffle_down(Seq::new(length, |i: int| i as usize), length - 1, state)
}

/// The indices `0..length`, shuffled from `state`.
pub fn shuffled_indices(length: usize, state: u64) -> (r: Vec<usize>)
    ensures
        r@ == shuffled(length as nat, state),
{
    let mut values: Vec<usize> = Vec::new();
    let mut i: usize = 0;
    while i < length
        invariant
            i <= length,
            values@ == Seq::new(i as nat, |k: int| k as usize),
        decreases length - i,
    {
        values.push(i);
        i = i + 1;
        assert(values@ =~= Seq::new(i as nat, |k: int| k as usize));
    }
    let ghost initial = state;
    let mut state = state;
    let mut index: usize = values.len();
    while index > 1
        invariant
            values@.len() == length,
            1 <= index <= length || (length == 0 && index == 0),
            shuffle_down(values@, index - 1, state) == shuffled(length as nat, initial),
        decreases index,
    {
        index = index - 1;
        state = state ^ (state << 13u64);
        state = state ^ (state >> 7u64);
        state = state ^ (state << 17u64);
        let j: usize = (state as usize) % (index + 1);
        let a: usize = values[index];
        let b: usize = values[j];
        values.set(index, b);
        values.set(j, a);
    }
    values
}

/// Shuffling from `index` down keeps the same elements, each as often.
proof fn lemma_shuffle_down_permutes(values: Seq<usize>, index: int, state: u64)
    requires
        values.len() <= usize::MAX,
    ensures
        shuffle_down(values, index, state).to_multiset() == values.to_multiset(),
        shuffle_down(values, index, state).len() == values.len(),
    decreases index,
{
    broadcast use {
        vstd::seq_lib::to_multiset_update,
        vstd::seq_lib::to_multiset_contains,
        vstd::multiset::group_multiset_axioms,
    };

    if !(index < 1 || index >= values.len()) {
        let next = xorshift(state);
        let j: int = ((next as usize) % ((index + 1) as usize)) as int;
        assert(0 <= j <= index);
        let first = values.update(index, values[j]);
        let second = first.update(j, values[index]);
        let m = values.to_multiset();
        assert(values.contains(values[index]));
        assert(values.contains(values[j]));
        assert(first.to_multiset() == m.insert(values[j]).remove(values[index]));
        assert(first[j] == values[j]);
        assert(second.to_multiset() == first.to_multiset().insert(values[index]).remove(
            values[j],
        ));
        assert(second.to_multiset() =~= values.to_multiset());
        lemma_shuffle_down_permutes(second, index - 1, next);
    }
}

/// A benchmark round runs every tool once: the shuffled indices are `0..length`, each once.
pub proof fn law_shuffled_indices_permute(length: nat, state: u64)
    requires
        length <= usize::MAX,
    ensures
        shuffled(length, state).len() == length,
        shuffled(length, state).to_multiset() == Seq::new(length, |i: int| i as usize).to_multiset(),
{
    lemma_shuffle_down_permutes(Seq::new(length, |i: int| i as usize), length - 1, state);
}

/// The order in which a round runs the tools that are active on a fixture: their indices
/// shuffled from the round's seed.
pub fn round_order(active: usize, measured: bool, fixture_index: u64, round: u64) -> (r: Vec<
    usize,
>)
    ensures
        r@ == shuffled(active as nat, round_seed(measured, fixture_index, round)),
{
    let seed = seed_of_round(measured, fixture_index, round);
    shuffled_indices(active, seed)
}

/// The placeholder that a tool's command arguments write for the fixture's path.
pub open spec fn file_placeholder() -> Seq<char> {
    seq!['{', 'f', 'i', 'l', 'e', '}']
}

/// `arg` with each `{file}`, read from the left and without overlaps, replaced by `path`.
pub open spec fn substituted(arg: Seq<char>, path: Seq<char>) -> Seq<char>
    decreases arg.len(),
{
    if arg.len() == 0 {
        arg
    } else if arg.len() >= 6 && arg.take(6) == file_placeholder() {
        path + substituted(arg.skip(6), path)
    } else {
        seq![arg[0]] + substituted(arg.skip(1), path)
    }
}

/// Replaces each `{file}` of `arg` by `path`.
pub fn substitute_file(arg: &str, path: &str) -> (r: String)
    ensures
        r@ == substituted(arg@, path@),
{
    let chars = chars_of(arg);
    let mut out = String::new();
    let mut start: usize = 0;
    let mut i: usize = 0;
    assert(arg@.skip(0) =~= arg@);
    while i < chars.len()
        invariant
            chars@ == arg@,
            start <= i <= chars@.len(),
            out@ + arg@.subrange(start as int, i as int) + substituted(arg@.skip(i as int), path@)
                == substituted(arg@, path@),
        decreases chars@.len() - i,
    {
        let ghost rest = arg@.skip(i as int);
        let is_placeholder = chars.len() - i >= 6 && chars[i] == '{' && chars[i + 1] == 'f'
            && chars[i + 2] == 'i' && chars[i + 3] == 'l' && chars[i + 4] == 'e' && chars[i + 5]
            == '}';
        if is_placeholder {
            assert(rest.take(6) =~= file_placeholder());
            assert(rest.skip(6) =~= arg@.skip(i + 6));
            let literal = arg.substring_char(start, i);
            out.append(literal);
            out.append(path);
            i = i + 6;
            start = i;
            assert(arg@.subrange(start as int, i as int) =~= Seq::<char>::empty());
            assert(out@ + arg@.subrange(start as int, i as int) + substituted(
                arg@.skip(i as int),
                path@,
            ) =~= substituted(arg@, path@));
        } else {
            assert(!(rest.len() >= 6 && rest.take(6) == file_placeholder())) by {
                if rest.len() >= 6 && rest.take(6) == file_placeholder() {
                    assert(rest.take(6)[0] == rest[0]);
                    assert(rest.take(6)[1] == rest[1]);
                    assert(rest.take(6)[2] == rest[2]);
                    assert(rest.take(6)[3] == rest[3]);
                    assert(rest.take(6)[4] == rest[4]);
                    assert(rest.take(6)[5] == rest[5]);
                }
            }
            assert(rest.skip(1) =~= arg@.skip(i + 1));
            assert(arg@.subrange(start as int, i + 1) =~= arg@.subrange(start as int, i as int)
                + seq![rest[0]]);
            i = i + 1;
            assert(out@ + arg@.subrange(start as int, i as int) + substituted(
                arg@.skip(i as int),
                path@,
            ) =~= substituted(arg@, path@));
        }
    }
    let literal = arg.substring_char(start, i);
    out.append(literal);
    assert(arg@.skip(i as int) =~= Seq::<char>::empty());
    assert(out@ =~= substituted(arg@, path@));
    out
}

/// The program and the arguments that run a tool's command on the fixture at `path`: the
/// command's first word, and the other words with each `{file}` replaced by `path`; an empty
/// command is an error.
pub fn command_line(command: &Vec<String>, path: &str) -> (r: Result<(String, Vec<String>), String>)
    ensures
        match r {
            Ok((program, arguments)) => {
                &&& command@.len() > 0
                &&& program@ == command@[0]@
                &&& arguments@.len() == command@.len() - 1
                &&& forall|i: int|
                    0 <= i < arguments@.len() ==> #[trigger] arguments@[i]@ == substituted(
                        command@[i + 1]@,
                        path@,
                    )
            },
            Err(e) => command@.len() == 0 && e@ == "empty tool command"@,
        },
{
    if command.len() == 0 {
        return Err("empty tool command".to_owned());
    }
    let program = command[0].clone();
    let mut arguments: Vec<String> = Vec::new();
    let mut i: usize = 1;
    while i < command.len()
        invariant
            1 <= i <= command@.len(),
            arguments@.len() == i - 1,
            forall|k: int|
                0 <= k < arguments@.len() ==> #[trigger] arguments@[k]@ == substituted(
                    command@[k + 1]@,
                    path@,
                ),
        decreases command@.len() - i,
    {
        arguments.push(substitute_file(command[i].as_str(), path));
        i = i + 1;
    }
    Ok((program, arguments))
}

/// Whether a tool's run succeeded: its exit code is one of those it accepts.
pub fn accepts_exit_code(accepted: &Vec<i32>, code: i32) -> (r: bool)
    ensures
        r == accepted@.contains(code),
{
    let mut i: usize = 0;
    while i < accepted.len()
        invariant
            i <= accepted@.len(),
            forall|k: int| 0 <= k < i ==> accepted@[k] != code,
        decreases accepted@.len() - i,
    {
        if accepted[i] == code {
            assert(accepted@[i as int] == code);
            return true;
        }
        i = i + 1;
    }
    false
}

} // verus!
