//! Identifiers handed out in order.
use vstd::prelude::*;

use crate::text::{decimal, law_decimal_is_injective, push_decimal};

verus! {

/// Source of consecutive ids. The first one is 1.
#[derive(Debug)]
pub struct IdCounter {
    next: u64,
}

impl IdCounter {
    /// The id handed out next.
    pub closed spec fn upcoming(&self) -> u64 {
        self.next
    }

    pub fn new() -> (r: Self)
        ensures
            r.upcoming() == 1,
    {
        IdCounter { next: 1 }
    }

    fn take(&mut self) -> (r: u64)
        ensures
            r == old(self).upcoming(),
            final(self).upcoming() == old(self).upcoming().wrapping_add(1),
    {
        let id: u64 = self.next;
        self.next = id.wrapping_add(1);
        id
    }
}

/// Identifies one client request.
#[derive(Debug, Clone, Copy, PartialEq, Eq, PartialOrd, Ord, Hash, Structural)]
pub struct RequestId(pub u64);

/// Identifies one generation stream. A request with `n > 1` owns several.
#[derive(Debug, Clone, Copy, PartialEq, Eq, PartialOrd, Ord, Hash, Structural)]
pub struct SequenceId(pub u64);

impl RequestId {
    /// Allocate the next id of `counter`.
    pub fn next(counter: &mut IdCounter) -> (r: Self)
        ensures
            r.0 == old(counter).upcoming(),
            final(counter).upcoming() == old(counter).upcoming().wrapping_add(1),
    {
        RequestId(counter.take())
    }

    pub fn raw(self) -> (r: u64)
        ensures
            r == self.0,
    {
        self.0
    }

    /// How the id is displayed.
    pub open spec fn text_spec(self) -> Seq<char> {
        "RequestId-"@ + decimal(self.0 as nat)
    }

    pub fn text(self) -> (r: String)
        ensures
            r@ == self.text_spec(),
    {
        let mut out = String::from_str("RequestId-");
        push_decimal(&mut out, self.0);
        out
    }
}

impl SequenceId {
    /// Allocate the next id of `counter`.
    pub fn next(counter: &mut IdCounter) -> (r: Self)
        ensures
            r.0 == old(counter).upcoming(),
            final(counter).upcoming() == old(counter).upcoming().wrapping_add(1),
    {
        SequenceId(counter.take())
    }

    pub fn raw(self) -> (r: u64)
        ensures
            r == self.0,
    {
        self.0
    }

    /// How the id is displayed.
    pub open spec fn text_spec(self) -> Seq<char> {
        "SequenceId-"@ + decimal(self.0 as nat)
    }

    pub fn text(self) -> (r: String)
        ensures
            r@ == self.text_spec(),
    {
        let mut out = String::from_str("SequenceId-");
        push_decimal(&mut out, self.0);
        out
    }
}

/// The id that a counter hands out after `n` others, `first` being the next one.
pub open spec fn drawn(first: u64, n: nat) -> u64
    decreases n,
{
    if n == 0 {
        first
    } else {
        drawn(first, (n - 1) as nat).wrapping_add(1)
    }
}

proof fn lemma_drawn(first: u64, n: nat)
    ensures
        drawn(first, n) as int == (first + n) % 0x1_0000_0000_0000_0000,
    decreases n,
{
    if n > 0 {
        lemma_drawn(first, (n - 1) as nat);
    }
}

/// The ids of one counter differ, as long as it has not gone all the way round.
pub proof fn law_the_ids_of_one_counter_differ(first: u64, a: nat, b: nat)
    requires
        a < b,
        b - a < 0x1_0000_0000_0000_0000,
    ensures
        drawn(first, a) != drawn(first, b),
{
    lemma_drawn(first, a);
    lemma_drawn(first, b);
}

/// An id is displayed by its kind and its number, so that two ids of a kind are
/// displayed alike exactly where they are the same.
pub proof fn law_ids_are_told_apart(a: RequestId, b: RequestId, c: SequenceId, d: SequenceId)
    ensures
        a.text_spec() == "RequestId-"@ + decimal(a.0 as nat),
        c.text_spec() == "SequenceId-"@ + decimal(c.0 as nat),
        a.text_spec() == b.text_spec() <==> a == b,
        c.text_spec() == d.text_spec() <==> c == d,
{
    reveal_strlit("RequestId-");
    reveal_strlit("SequenceId-");
    law_decimal_is_injective(a.0 as nat, b.0 as nat);
    law_decimal_is_injective(c.0 as nat, d.0 as nat);
    assert(a.text_spec().skip("RequestId-"@.len() as int) =~= decimal(a.0 as nat));
    assert(b.text_spec().skip("RequestId-"@.len() as int) =~= decimal(b.0 as nat));
    assert(c.text_spec().skip("SequenceId-"@.len() as int) =~= decimal(c.0 as nat));
    assert(d.text_spec().skip("SequenceId-"@.len() as int) =~= decimal(d.0 as nat));
}

} // verus!
