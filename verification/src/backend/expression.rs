//! Which regular expressions a `tokenizer.json` may hold.
//!
//! The expressions are run by a backtracking engine. It reads the text of a
//! group that a back-reference names without asking whether the group ended
//! where it began, lets a match begin before the place it was looked for, and
//! runs a counted repetition as often as the count says. An expression that could
//! lead it there is refused; what is left are literals, classes, groups,
//! look-arounds and repetitions with small counts.
use vstd::prelude::*;

use crate::text::chars_of;

verus! {

/// The longest expression, in characters.
pub const MAX_EXPRESSION: usize = 0x4000;

/// How often the counts of an expression may repeat a part of it, taken together.
pub const MAX_REPEATS: u64 = 1000;

/// A kind of character that an expression holds in runs.
#[derive(Clone, Copy)]
pub enum Run {
    /// The digits of a count.
    Digits,
    /// The digits of a code point.
    Hex,
    /// The name of a class of characters.
    Name,
    /// The flags of a group. The one that lets blanks and comments stand anywhere
    /// is not among them.
    Flags,
}

pub open spec fn is_digit(c: char) -> bool {
    '0' <= c && c <= '9'
}

pub open spec fn is_letter(c: char) -> bool {
    ('a' <= c && c <= 'z') || ('A' <= c && c <= 'Z')
}

impl Run {
    /// Whether a character belongs to such a run.
    pub open spec fn has(self, c: char) -> bool {
        match self {
            Run::Digits => is_digit(c),
            Run::Hex => is_digit(c) || ('a' <= c && c <= 'f') || ('A' <= c && c <= 'F'),
            Run::Name => is_letter(c) || is_digit(c) || c == '_' || c == '=' || c == '^' || c
                == '-' || c == ':' || c == ' ',
            Run::Flags => c == 'i' || c == 'm' || c == 's' || c == 'u' || c == 'U' || c == '-',
        }
    }
}

/// The character at a place, if there is one.
pub open spec fn at(e: Seq<char>, i: int, c: char) -> bool {
    0 <= i < e.len() && e[i] == c
}

/// Where the run that starts at `i` ends.
pub open spec fn run_end(e: Seq<char>, i: int, run: Run) -> int
    decreases e.len() - i,
{
    if 0 <= i < e.len() && run.has(e[i]) {
        run_end(e, i + 1, run)
    } else {
        i
    }
}

/// Where a run in braces ends that opens at `i`.
pub open spec fn braced_end(e: Seq<char>, i: int, run: Run) -> Option<int> {
    let j = run_end(e, i + 1, run);
    if j > i + 1 && at(e, j, '}') {
        Some(j + 1)
    } else {
        None
    }
}

/// Where the escape ends that starts at `i`, unless it refers back to a group or
/// moves the start of the match.
pub open spec fn escape_end(e: Seq<char>, i: int) -> Option<int> {
    if i + 1 >= e.len() {
        None
    } else {
        let c = e[i + 1];
        if is_digit(c) || c == 'k' || c == 'K' {
            None
        } else if c == 'p' || c == 'P' {
            if at(e, i + 2, '{') {
                braced_end(e, i + 2, Run::Name)
            } else if i + 2 < e.len() && is_letter(e[i + 2]) {
                Some(i + 3)
            } else {
                None
            }
        } else if (c == 'x' || c == 'u' || c == 'U') && at(e, i + 2, '{') {
            braced_end(e, i + 2, Run::Hex)
        } else {
            Some(i + 2)
        }
    }
}

/// Where the head of the group ends that opens with `(?` at `i`, unless it is a
/// reference, a condition or a comment.
pub open spec fn head_end(e: Seq<char>, i: int) -> Option<int> {
    let flags = run_end(e, i + 2, Run::Flags);
    if at(e, i + 2, '=') || at(e, i + 2, '!') || at(e, i + 2, '>') {
        Some(i + 3)
    } else if at(e, i + 2, '<') && (at(e, i + 3, '=') || at(e, i + 3, '!')) {
        Some(i + 4)
    } else if at(e, i + 2, '<') && i + 3 < e.len() && is_letter(e[i + 3]) {
        Some(i + 3)
    } else if at(e, i + 2, 'P') && at(e, i + 3, '<') {
        Some(i + 4)
    } else if at(e, flags, ':') || at(e, flags, ')') {
        Some(flags + 1)
    } else {
        None
    }
}

/// The number that the digits from `i` to `j` write.
pub open spec fn number(e: Seq<char>, i: int, j: int) -> nat
    decreases j - i,
{
    if j <= i {
        0
    } else {
        number(e, i, j - 1) * 10 + (e[j - 1] as u32 - 48) as nat
    }
}

/// The larger of a count and one.
pub open spec fn at_least_once(n: nat) -> nat {
    if n == 0 {
        1
    } else {
        n
    }
}

/// The larger of two counts.
pub open spec fn larger(a: nat, b: nat) -> nat {
    if a >= b {
        a
    } else {
        b
    }
}

/// Where the count ends that opens with a brace at `i`, and how often it repeats
/// what is before it. A brace that opens no count stands for itself.
pub open spec fn count_end(e: Seq<char>, i: int) -> Option<(int, nat)> {
    if !at(e, i + 1, ',') && !(i + 1 < e.len() && is_digit(e[i + 1])) {
        Some((i + 1, 1))
    } else {
        let j = run_end(e, i + 1, Run::Digits);
        let k = run_end(e, j + 1, Run::Digits);
        if j - (i + 1) > 3 {
            None
        } else if at(e, j, '}') {
            Some((j + 1, at_least_once(number(e, i + 1, j))))
        } else if at(e, j, ',') && at(e, k, '}') && k - (j + 1) <= 3 {
            Some((k + 1, at_least_once(larger(number(e, i + 1, j), number(e, j + 1, k)))))
        } else {
            None
        }
    }
}

/// Where the part of the expression that starts at `i` ends, and how often it
/// repeats what is before it, if it is one of those listed.
pub open spec fn part_end(e: Seq<char>, i: int) -> Option<(int, nat)> {
    if e[i] == '\\' {
        match escape_end(e, i) {
            Some(j) => Some((j, 1)),
            None => None,
        }
    } else if e[i] == '(' && at(e, i + 1, '?') {
        match head_end(e, i) {
            Some(j) => Some((j, 1)),
            None => None,
        }
    } else if e[i] == '{' {
        count_end(e, i)
    } else {
        Some((i + 1, 1))
    }
}

/// How often the counts from `i` on repeat a part of the expression, taken
/// together, if all its parts are among those listed.
pub open spec fn repeats(e: Seq<char>, i: int) -> Option<nat>
    decreases e.len() - i,
{
    if i >= e.len() {
        Some(1)
    } else {
        match part_end(e, i) {
            Some((j, times)) => if j > i {
                match repeats(e, j) {
                    Some(more) => Some(times * more),
                    None => None,
                }
            } else {
                None
            },
            None => None,
        }
    }
}

/// An expression that refers back to no group, lets no match begin before the
/// place it is looked for, and repeats nothing at length by a count.
pub open spec fn is_tame(expression: Seq<char>) -> bool {
    &&& expression.len() <= MAX_EXPRESSION
    &&& match repeats(expression, 0) {
        Some(times) => times <= MAX_REPEATS,
        None => false,
    }
}

/// Where the character or the class of characters ends with which the expression
/// starts, if it starts with one.
pub open spec fn first_end(e: Seq<char>) -> Option<int> {
    if at(e, 0, '\\') {
        if at(e, 1, 's') || at(e, 1, 'S') || at(e, 1, 'd') || at(e, 1, 'D') || at(e, 1, 'w') || at(
            e,
            1,
            'W',
        ) || at(e, 1, 'n') || at(e, 1, 'r') || at(e, 1, 't') {
            Some(2)
        } else {
            None
        }
    } else if e.len() > 0 && (is_letter(e[0]) || is_digit(e[0]) || e[0] == ' ' || e[0] == '.'
        || e[0] == '_') {
        Some(1)
    } else {
        None
    }
}

/// A tame expression that matches no empty text: there are no alternatives, and
/// what it starts with is there at least once.
pub open spec fn always_takes(e: Seq<char>) -> bool {
    &&& is_tame(e)
    &&& forall|i: int| 0 <= i < e.len() ==> #[trigger] e[i] != '|'
    &&& match first_end(e) {
        Some(j) => {
            &&& !at(e, j, '?')
            &&& !at(e, j, '*')
            &&& at(e, j, '{') ==> j + 1 < e.len() && is_digit(e[j + 1]) && number(
                e,
                j + 1,
                run_end(e, j + 1, Run::Digits),
            ) > 0
        },
        None => false,
    }
}

proof fn lemma_run_end(e: Seq<char>, i: int, run: Run)
    ensures
        i <= run_end(e, i, run),
        i <= e.len() ==> run_end(e, i, run) <= e.len(),
        forall|j: int| i <= j < run_end(e, i, run) ==> run.has(#[trigger] e[j]),
    decreases e.len() - i,
{
    if 0 <= i < e.len() && run.has(e[i]) {
        lemma_run_end(e, i + 1, run);
    }
}

fn belongs(run: Run, c: char) -> (r: bool)
    ensures
        r == run.has(c),
{
    match run {
        Run::Digits => '0' <= c && c <= '9',
        Run::Hex => ('0' <= c && c <= '9') || ('a' <= c && c <= 'f') || ('A' <= c && c <= 'F'),
        Run::Name => letter(c) || ('0' <= c && c <= '9') || c == '_' || c == '=' || c == '^' || c
            == '-' || c == ':' || c == ' ',
        Run::Flags => c == 'i' || c == 'm' || c == 's' || c == 'u' || c == 'U' || c == '-',
    }
}

fn letter(c: char) -> (r: bool)
    ensures
        r == is_letter(c),
{
    ('a' <= c && c <= 'z') || ('A' <= c && c <= 'Z')
}

fn is_at(e: &Vec<char>, i: usize, c: char) -> (r: bool)
    ensures
        r == at(e@, i as int, c),
{
    i < e.len() && e[i] == c
}

fn find_run_end(e: &Vec<char>, i: usize, run: Run) -> (r: usize)
    requires
        i <= e@.len(),
    ensures
        r == run_end(e@, i as int, run),
        i <= r <= e@.len(),
{
    let mut j: usize = i;
    while j < e.len() && belongs(run, e[j])
        invariant
            i <= j <= e@.len(),
            run_end(e@, i as int, run) == run_end(e@, j as int, run),
        decreases e.len() - j,
    {
        j = j + 1;
    }
    j
}

fn find_braced_end(e: &Vec<char>, i: usize, run: Run) -> (r: Option<usize>)
    requires
        i < e@.len() <= MAX_EXPRESSION,
    ensures
        match r {
            Some(j) => braced_end(e@, i as int, run) == Some(j as int) && i < j <= e@.len(),
            None => braced_end(e@, i as int, run) is None,
        },
{
    let j: usize = find_run_end(e, i + 1, run);
    if j > i + 1 && is_at(e, j, '}') {
        Some(j + 1)
    } else {
        None
    }
}

fn find_escape_end(e: &Vec<char>, i: usize) -> (r: Option<usize>)
    requires
        i < e@.len() <= MAX_EXPRESSION,
    ensures
        match r {
            Some(j) => escape_end(e@, i as int) == Some(j as int) && i < j <= e@.len(),
            None => escape_end(e@, i as int) is None,
        },
{
    if i + 1 >= e.len() {
        return None;
    }
    let c: char = e[i + 1];
    if ('0' <= c && c <= '9') || c == 'k' || c == 'K' {
        None
    } else if c == 'p' || c == 'P' {
        if is_at(e, i + 2, '{') {
            find_braced_end(e, i + 2, Run::Name)
        } else if i + 2 < e.len() && letter(e[i + 2]) {
            Some(i + 3)
        } else {
            None
        }
    } else if (c == 'x' || c == 'u' || c == 'U') && is_at(e, i + 2, '{') {
        find_braced_end(e, i + 2, Run::Hex)
    } else {
        Some(i + 2)
    }
}

fn find_head_end(e: &Vec<char>, i: usize) -> (r: Option<usize>)
    requires
        i + 1 < e@.len() <= MAX_EXPRESSION,
    ensures
        match r {
            Some(j) => head_end(e@, i as int) == Some(j as int) && i < j <= e@.len(),
            None => head_end(e@, i as int) is None,
        },
{
    let flags: usize = find_run_end(e, i + 2, Run::Flags);
    if is_at(e, i + 2, '=') || is_at(e, i + 2, '!') || is_at(e, i + 2, '>') {
        Some(i + 3)
    } else if is_at(e, i + 2, '<') && (is_at(e, i + 3, '=') || is_at(e, i + 3, '!')) {
        Some(i + 4)
    } else if is_at(e, i + 2, '<') && i + 3 < e.len() && letter(e[i + 3]) {
        Some(i + 3)
    } else if is_at(e, i + 2, 'P') && is_at(e, i + 3, '<') {
        Some(i + 4)
    } else if is_at(e, flags, ':') || is_at(e, flags, ')') {
        Some(flags + 1)
    } else {
        None
    }
}

fn read_number(e: &Vec<char>, i: usize, j: usize) -> (r: u64)
    requires
        i <= j <= e@.len(),
        j - i <= 3,
        forall|k: int| i <= k < j ==> is_digit(#[trigger] e@[k]),
    ensures
        r == number(e@, i as int, j as int),
        r < 1000,
{
    let mut n: u64 = 0;
    let mut k: usize = i;
    while k < j
        invariant
            i <= k <= j <= e@.len(),
            j - i <= 3,
            forall|m: int| i <= m < j ==> is_digit(#[trigger] e@[m]),
            n == number(e@, i as int, k as int),
            k == i ==> n < 1,
            k == i + 1 ==> n < 10,
            k == i + 2 ==> n < 100,
            k == i + 3 ==> n < 1000,
        decreases j - k,
    {
        assert(is_digit(e@[k as int]));
        n = n * 10 + (e[k] as u32 - 48) as u64;
        k = k + 1;
    }
    n
}

fn find_count_end(e: &Vec<char>, i: usize) -> (r: Option<(usize, u64)>)
    requires
        i < e@.len() <= MAX_EXPRESSION,
    ensures
        match r {
            Some((j, times)) => count_end(e@, i as int) == Some((j as int, times as nat)) && i < j
                <= e@.len() && 1 <= times < 1000,
            None => count_end(e@, i as int) is None,
        },
{
    if !is_at(e, i + 1, ',') && !(i + 1 < e.len() && belongs(Run::Digits, e[i + 1])) {
        return Some((i + 1, 1));
    }
    let j: usize = find_run_end(e, i + 1, Run::Digits);
    proof {
        lemma_run_end(e@, i + 1, Run::Digits);
    }
    if j - (i + 1) > 3 {
        return None;
    }
    let low: u64 = read_number(e, i + 1, j);
    if is_at(e, j, '}') {
        return Some((j + 1, if low == 0 { 1 } else { low }));
    }
    if !is_at(e, j, ',') {
        return None;
    }
    let k: usize = find_run_end(e, j + 1, Run::Digits);
    proof {
        lemma_run_end(e@, j + 1, Run::Digits);
    }
    if !is_at(e, k, '}') || k - (j + 1) > 3 {
        return None;
    }
    let high: u64 = read_number(e, j + 1, k);
    let most: u64 = if low >= high {
        low
    } else {
        high
    };
    Some((k + 1, if most == 0 { 1 } else { most }))
}

fn find_part_end(e: &Vec<char>, i: usize) -> (r: Option<(usize, u64)>)
    requires
        i < e@.len() <= MAX_EXPRESSION,
    ensures
        match r {
            Some((j, times)) => part_end(e@, i as int) == Some((j as int, times as nat)) && i < j
                <= e@.len() && 1 <= times < 1000,
            None => part_end(e@, i as int) is None,
        },
{
    if e[i] == '\\' {
        match find_escape_end(e, i) {
            Some(j) => Some((j, 1)),
            None => None,
        }
    } else if e[i] == '(' && is_at(e, i + 1, '?') {
        match find_head_end(e, i) {
            Some(j) => Some((j, 1)),
            None => None,
        }
    } else if e[i] == '{' {
        find_count_end(e, i)
    } else {
        Some((i + 1, 1))
    }
}

proof fn lemma_repeats_are_positive(e: Seq<char>, i: int)
    requires
        0 <= i,
        repeats(e, i) is Some,
    ensures
        repeats(e, i)->0 >= 1,
    decreases e.len() - i,
{
    if i < e.len() {
        let (j, times) = part_end(e, i)->0;
        lemma_repeats_are_positive(e, j);
        let more = repeats(e, j)->0;
        assert(times >= 1);
        assert(times * more >= 1) by (nonlinear_arith)
            requires
                times >= 1,
                more >= 1,
        ;
    }
}

/// What is read so far, and what is to come, make up the repeats of the whole.
spec fn so_far(e: Seq<char>, i: int, times: nat) -> Option<nat> {
    match repeats(e, i) {
        Some(more) => Some(times * more),
        None => None,
    }
}

/// Whether an expression refers back to no group, lets no match begin before the
/// place it is looked for, and repeats nothing at length by a count.
pub fn check_expression(expression: &str) -> (r: bool)
    ensures
        r == is_tame(expression@),
{
    let e: Vec<char> = chars_of(expression);
    if e.len() > MAX_EXPRESSION {
        return false;
    }
    let mut i: usize = 0;
    let mut times: u64 = 1;
    proof {
        if let Some(more) = repeats(e@, 0) {
            assert(1 * more == more);
        }
    }
    while i < e.len()
        invariant
            e@ == expression@,
            e@.len() <= MAX_EXPRESSION,
            i <= e@.len(),
            1 <= times <= MAX_REPEATS,
            repeats(e@, 0) == so_far(e@, i as int, times as nat),
        decreases e.len() - i,
    {
        let (j, here) = match find_part_end(&e, i) {
            Some(found) => found,
            None => return false,
        };
        let ghost before = times as nat;
        assert(times * here < 1_000_000) by (nonlinear_arith)
            requires
                1 <= times <= 1000,
                1 <= here < 1000,
        ;
        assert(times * here >= 1) by (nonlinear_arith)
            requires
                1 <= times,
                1 <= here,
        ;
        times = times * here;
        proof {
            if let Some(more) = repeats(e@, j as int) {
                lemma_repeats_are_positive(e@, j as int);
                assert(before * (here as nat * more) == (before * here as nat) * more)
                    by (nonlinear_arith);
                assert(times as nat * more >= times) by (nonlinear_arith)
                    requires
                        more >= 1,
                        times >= 0,
                ;
            }
        }
        if times > MAX_REPEATS {
            return false;
        }
        i = j;
    }
    assert(times as nat * 1 == times);
    true
}

fn find_first_end(e: &Vec<char>) -> (r: Option<usize>)
    ensures
        match r {
            Some(j) => first_end(e@) == Some(j as int) && 0 < j <= 2,
            None => first_end(e@) is None,
        },
{
    if is_at(e, 0, '\\') {
        if is_at(e, 1, 's') || is_at(e, 1, 'S') || is_at(e, 1, 'd') || is_at(e, 1, 'D') || is_at(
            e,
            1,
            'w',
        ) || is_at(e, 1, 'W') || is_at(e, 1, 'n') || is_at(e, 1, 'r') || is_at(e, 1, 't') {
            Some(2)
        } else {
            None
        }
    } else if e.len() > 0 && (letter(e[0]) || belongs(Run::Digits, e[0]) || e[0] == ' ' || e[0]
        == '.' || e[0] == '_') {
        Some(1)
    } else {
        None
    }
}

fn has_number(e: &Vec<char>, i: usize) -> (r: bool)
    requires
        i <= e@.len(),
    ensures
        r == (number(e@, i as int, run_end(e@, i as int, Run::Digits)) > 0),
{
    let j: usize = find_run_end(e, i, Run::Digits);
    proof {
        lemma_run_end(e@, i as int, Run::Digits);
    }
    let mut k: usize = i;
    while k < j
        invariant
            i <= k <= j <= e@.len(),
            forall|m: int| i <= m < j ==> is_digit(#[trigger] e@[m]),
            number(e@, i as int, k as int) == 0,
            j == run_end(e@, i as int, Run::Digits),
        decreases j - k,
    {
        assert(is_digit(e@[k as int]));
        if e[k] != '0' {
            proof {
                lemma_number_stays_positive(e@, i as int, k + 1, j as int);
            }
            return true;
        }
        k = k + 1;
    }
    false
}

proof fn lemma_number_stays_positive(e: Seq<char>, i: int, k: int, j: int)
    requires
        0 <= i <= k <= j <= e.len(),
        number(e, i, k) > 0,
        forall|m: int| i <= m < j ==> is_digit(#[trigger] e[m]),
    ensures
        number(e, i, j) > 0,
    decreases j - k,
{
    if k < j {
        assert(is_digit(e[k]));
        lemma_number_stays_positive(e, i, k + 1, j);
    }
}

/// Whether an expression is tame and matches no empty text.
pub fn check_takes(expression: &str) -> (r: bool)
    ensures
        r == always_takes(expression@),
{
    if !check_expression(expression) {
        return false;
    }
    let e: Vec<char> = chars_of(expression);
    for i in 0..e.len()
        invariant
            e@ == expression@,
            forall|j: int| 0 <= j < i ==> #[trigger] e@[j] != '|',
    {
        if e[i] == '|' {
            return false;
        }
    }
    match find_first_end(&e) {
        Some(j) => !is_at(&e, j, '?') && !is_at(&e, j, '*') && (!is_at(&e, j, '{') || (j + 1
            < e.len() && belongs(Run::Digits, e[j + 1]) && has_number(&e, j + 1))),
        None => false,
    }
}

proof fn lemma_plain_repeats_nothing(e: Seq<char>, i: int)
    requires
        0 <= i <= e.len(),
        forall|k: int|
            0 <= k < e.len() ==> #[trigger] e[k] != '\\' && e[k] != '(' && e[k] != '{',
    ensures
        repeats(e, i) == Some(1nat),
    decreases e.len() - i,
{
    if i < e.len() {
        assert(part_end(e, i) == Some((i + 1, 1nat)));
        lemma_plain_repeats_nothing(e, i + 1);
        let more = repeats(e, i + 1)->0;
        assert(1nat * more == 1);
        assert(repeats(e, i) == Some(1nat * more));
    }
}

/// An expression without escapes, groups and counts is tame, unless it is too long.
pub proof fn law_plain_expressions_are_tame(e: Seq<char>)
    requires
        e.len() <= MAX_EXPRESSION,
        forall|k: int|
            0 <= k < e.len() ==> #[trigger] e[k] != '\\' && e[k] != '(' && e[k] != '{',
    ensures
        is_tame(e),
{
    lemma_plain_repeats_nothing(e, 0);
}

/// An expression that starts by referring back, by moving the start of the match,
/// or with a group of a kind that is not known, is not tame.
pub proof fn law_references_are_not_tame(e: Seq<char>)
    requires
        e.len() >= 2,
    ensures
        e[0] == '\\' && (is_digit(e[1]) || e[1] == 'k' || e[1] == 'K') ==> !is_tame(e),
        e[0] == '(' && e[1] == '?' && e.len() >= 3 && (e[2] == '#' || e[2] == '(' || e[2] == 'x')
            ==> !is_tame(e),
        e[0] == '\\' && e.len() == 2 && !is_digit(e[1]) && e[1] != 'k' && e[1] != 'K' && e[1]
            != 'p' && e[1] != 'P' ==> is_tame(e),
{
    if e[0] == '(' && e[1] == '?' && e.len() >= 3 && (e[2] == '#' || e[2] == '(' || e[2] == 'x') {
        assert(run_end(e, 2, Run::Flags) == 2);
        assert(head_end(e, 0) is None);
        assert(part_end(e, 0) is None);
    }
    if e[0] == '\\' && (is_digit(e[1]) || e[1] == 'k' || e[1] == 'K') {
        assert(part_end(e, 0) is None);
    }
    if e[0] == '\\' && e.len() == 2 && !is_digit(e[1]) && e[1] != 'k' && e[1] != 'K' && e[1]
        != 'p' && e[1] != 'P' {
        assert(part_end(e, 0) == Some((2int, 1nat)));
        assert(repeats(e, 2) == Some(1nat));
    }
}

} // verus!
