//! Lengths of videos and the `hh:mm:ss` stamps of the playlist.

use vstd::prelude::*;
use crate::text::{padded_decimal, push_char, push_padded_decimal};

verus! {

/// Nanoseconds in one second.
pub const NANOS_PER_SEC: u32 = 1_000_000_000;

/// Exclusive bound on the nanoseconds a `TimeSpan` can hold: whole seconds fit in a `u64`.
pub open spec fn span_limit() -> nat {
    (u64::MAX as nat + 1) * (NANOS_PER_SEC as nat)
}

/// A length of time, as whole seconds and the nanoseconds beyond them
/// (the same representation as `std::time::Duration`).
#[derive(Clone, Copy, Debug)]
pub struct TimeSpan {
    secs: u64,
    nanos: u32,
}

impl View for TimeSpan {
    /// The length in nanoseconds.
    type V = nat;

    closed spec fn view(&self) -> nat {
        (self.secs as nat) * (NANOS_PER_SEC as nat) + self.nanos as nat
    }
}

impl TimeSpan {
    #[verifier::type_invariant]
    spec fn well_formed(self) -> bool {
        self.nanos < NANOS_PER_SEC
    }

    /// A span of `secs` seconds and `nanos` nanoseconds.
    pub fn new(secs: u64, nanos: u32) -> (t: TimeSpan)
        requires
            nanos < NANOS_PER_SEC,
        ensures
            t@ == (secs as nat) * (NANOS_PER_SEC as nat) + nanos as nat,
            t@ < span_limit(),
    {
        TimeSpan { secs, nanos }
    }

    /// The empty span.
    pub fn zero() -> (t: TimeSpan)
        ensures
            t@ == 0,
            t@ < span_limit(),
    {
        TimeSpan { secs: 0, nanos: 0 }
    }

    /// Whole seconds of the span (`Duration::as_secs`).
    pub fn as_secs(&self) -> (s: u64)
        ensures
            s as nat == self@ / (NANOS_PER_SEC as nat),
    {
        proof {
            use_type_invariant(self);
            vstd::arithmetic::div_mod::lemma_fundamental_div_mod_converse(
                self@ as int,
                NANOS_PER_SEC as int,
                self.secs as int,
                self.nanos as int,
            );
        }
        self.secs
    }

    /// Nanoseconds beyond the whole seconds (`Duration::subsec_nanos`).
    pub fn subsec_nanos(&self) -> (n: u32)
        ensures
            n as nat == self@ % (NANOS_PER_SEC as nat),
    {
        proof {
            use_type_invariant(self);
            vstd::arithmetic::div_mod::lemma_fundamental_div_mod_converse(
                self@ as int,
                NANOS_PER_SEC as int,
                self.secs as int,
                self.nanos as int,
            );
        }
        self.nanos
    }

    /// The sum of two spans (`Duration + Duration`); the sum must stay below the limit,
    /// where `Duration` panics.
    pub fn plus(self, other: TimeSpan) -> (t: TimeSpan)
        requires
            self@ + other@ < span_limit(),
        ensures
            t@ == self@ + other@,
            t@ < span_limit(),
    {
        proof {
            use_type_invariant(&self);
            use_type_invariant(&other);
        }
        let nanos = self.nanos + other.nanos;
        if nanos >= NANOS_PER_SEC {
            TimeSpan { secs: self.secs + other.secs + 1, nanos: nanos - NANOS_PER_SEC }
        } else {
            TimeSpan { secs: self.secs + other.secs, nanos }
        }
    }
}

impl TimeSpan {
    /// The sum of two spans, or `None` where it would reach the limit
    /// (`Duration::checked_add`).
    pub fn checked_plus(self, other: TimeSpan) -> (t: Option<TimeSpan>)
        ensures
            t is Some <==> self@ + other@ < span_limit(),
            t matches Some(s) ==> s@ == self@ + other@ && s@ < span_limit(),
    {
        proof {
            use_type_invariant(&self);
            use_type_invariant(&other);
        }
        let nanos = self.nanos + other.nanos;
        let carry: u64 = if nanos >= NANOS_PER_SEC { 1 } else { 0 };
        match self.secs.checked_add(other.secs) {
            Some(s) => match s.checked_add(carry) {
                Some(secs) => Some(self.plus(other)),
                None => None,
            },
            None => None,
        }
    }
}

/// `hh:mm:ss` for a number of whole seconds: hours, minutes of the hour and seconds of the
/// minute, each in decimal padded with zeros to two digits (hours may take more).
pub open spec fn clock_text(total_secs: nat) -> Seq<char> {
    padded_decimal(total_secs / 3600, 2) + seq![':'] + padded_decimal((total_secs % 3600) / 60, 2)
        + seq![':'] + padded_decimal(total_secs % 60, 2)
}

/// The fields of `clock_text` spell hours, minutes and seconds that add back up to the
/// total, with minutes and seconds below 60.
pub proof fn lemma_clock_fields(total_secs: nat)
    ensures
        (total_secs / 3600) * 3600 + ((total_secs % 3600) / 60) * 60 + total_secs % 60
            == total_secs,
        (total_secs % 3600) / 60 < 60,
        total_secs % 60 < 60,
{
    let h = total_secs / 3600;
    let r = total_secs % 3600;
    assert(total_secs == h * 3600 + r && r < 3600) by {
        vstd::arithmetic::div_mod::lemma_fundamental_div_mod(total_secs as int, 3600);
    }
    assert(r == (r / 60) * 60 + r % 60 && r % 60 < 60) by {
        vstd::arithmetic::div_mod::lemma_fundamental_div_mod(r as int, 60);
    }
    assert(total_secs % 60 == r % 60) by {
        vstd::arithmetic::div_mod::lemma_mod_mod(total_secs as int, 60, 60);
        assert(3600 == 60 * 60);
    }
}

/// The stamp of `h` hours, `m` minutes and `s` seconds (minutes and seconds below 60) spells
/// exactly those three numbers, hours first, each padded to two digits.
pub proof fn lemma_clock_text_spells_fields(h: nat, m: nat, s: nat)
    requires
        m < 60,
        s < 60,
    ensures
        clock_text(h * 3600 + m * 60 + s) == padded_decimal(h, 2) + seq![':'] + padded_decimal(m, 2)
            + seq![':'] + padded_decimal(s, 2),
{
    let t = h * 3600 + m * 60 + s;
    vstd::arithmetic::div_mod::lemma_fundamental_div_mod_converse(
        t as int,
        3600,
        h as int,
        (m * 60 + s) as int,
    );
    vstd::arithmetic::div_mod::lemma_fundamental_div_mod_converse(
        (m * 60 + s) as int,
        60,
        m as int,
        s as int,
    );
    vstd::arithmetic::div_mod::lemma_fundamental_div_mod_converse(
        t as int,
        60,
        (h * 60 + m) as int,
        s as int,
    );
}

/// `hh:mm:ss` for the whole seconds of `dur`.
pub fn format_duration(dur: TimeSpan) -> (s: String)
    ensures
        s@ == clock_text(dur@ / (NANOS_PER_SEC as nat)),
{
    let total_seconds = dur.as_secs();
    let hours = total_seconds / 3600;
    let minutes = (total_seconds % 3600) / 60;
    let seconds = total_seconds % 60;
    let mut s = String::new();
    push_padded_decimal(&mut s, hours, 2);
    push_char(&mut s, ':');
    push_padded_decimal(&mut s, minutes, 2);
    push_char(&mut s, ':');
    push_padded_decimal(&mut s, seconds, 2);
    s
}

} // verus!
