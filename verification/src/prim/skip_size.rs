//! The size of a written skip list in closed form: a 12-byte entry for
//! every multiple of `s^k` at the level that skips `s^k` values, 8 more
//! bytes for each entry of the last level, and a 24-byte trailer.
use vstd::prelude::*;
use vstd::arithmetic::div_mod::*;

use crate::prim::skip_layout::{span, SkipModel};

verus! {

/// `n / d` rounded up.
pub open spec fn ceil_div(n: nat, d: nat) -> nat {
    ((n + d - 1) as nat) / d
}

/// The number of multiples of `e` among the indices from `k` up to, but
/// not including, `n`.
pub open spec fn multiples(k: nat, n: nat, e: nat) -> nat
    decreases n - k,
{
    if k >= n {
        0
    } else {
        (if k % e == 0 {
            1nat
        } else {
            0nat
        }) + multiples(k + 1, n, e)
    }
}

/// The sum, over the exponents `k` from `lo` to `hi`, of `n` divided by `s`
/// to the power `k`, rounded up.
pub open spec fn entry_total(n: nat, s: nat, lo: nat, hi: nat) -> nat
    decreases hi + 1 - lo,
{
    if lo > hi {
        0
    } else {
        ceil_div(n, span(s, lo)) + entry_total(n, s, lo + 1, hi)
    }
}

/// Rounding up `k + 1` over `e` gives one more than rounding up `k` exactly
/// when `k` is a multiple of `e`.
proof fn lemma_ceil_step(k: nat, e: nat)
    requires
        e >= 1,
    ensures
        ceil_div(k + 1, e) == ceil_div(k, e) + (if k % e == 0 {
            1nat
        } else {
            0nat
        }),
{
    let ki = k as int;
    let ei = e as int;
    lemma_fundamental_div_mod(ki, ei);
    lemma_mod_bound(ki, ei);
    let q = ki / ei;
    let r = ki % ei;
    assert(ki == q * ei + r) by (nonlinear_arith)
        requires
            ki == ei * q + r,
    ;
    if r == 0 {
        lemma_fundamental_div_mod_converse(ki + ei - 1, ei, q, ei - 1);
        assert(ki + ei == (q + 1) * ei + 0) by (nonlinear_arith)
            requires
                ki == q * ei,
        ;
        lemma_fundamental_div_mod_converse(ki + ei, ei, q + 1, 0);
    } else {
        assert(ki + ei - 1 == (q + 1) * ei + (r - 1)) by (nonlinear_arith)
            requires
                ki == q * ei + r,
        ;
        lemma_fundamental_div_mod_converse(ki + ei - 1, ei, q + 1, r - 1);
        assert(ki + ei == (q + 1) * ei + r) by (nonlinear_arith)
            requires
                ki == q * ei + r,
        ;
        lemma_fundamental_div_mod_converse(ki + ei, ei, q + 1, r);
    }
}

/// Counting the multiples of `e` from `k` up to `n` is rounding up `n` and
/// `k` over `e` and taking the difference.
proof fn lemma_multiples(k: nat, n: nat, e: nat)
    requires
        e >= 1,
        k <= n,
    ensures
        multiples(k, n, e) + ceil_div(k, e) == ceil_div(n, e),
    decreases n - k,
{
    if k < n {
        lemma_multiples(k + 1, n, e);
        lemma_ceil_step(k, e);
    }
}

/// The number of multiples of `e` below `n` is `n / e` rounded up.
pub proof fn lemma_multiples_below(n: nat, e: nat)
    requires
        e >= 1,
    ensures
        multiples(0, n, e) == ceil_div(n, e),
{
    lemma_multiples(0, n, e);
    assert(ceil_div(0, e) == 0) by {
        lemma_basic_div((e - 1) as int, e as int);
    }
}

impl SkipModel {
    /// The number of bytes of the entries of the levels below `j` whose
    /// index is `k` or more.
    pub open spec fn level_bytes(self, k: nat, j: nat) -> nat
        decreases j,
    {
        if j == 0 {
            0
        } else {
            let l = (j - 1) as nat;
            let count = multiples(k, self.len(), self.skip_every(l));
            self.level_bytes(k, l) + if self.is_last(l) {
                20 * count
            } else {
                12 * count
            }
        }
    }

    /// The number of entries of the levels below `j`, whatever their size.
    pub open spec fn level_entries(self, j: nat) -> nat
        decreases j,
    {
        if j == 0 {
            0
        } else {
            let l = (j - 1) as nat;
            self.level_entries(l) + multiples(0, self.len(), self.skip_every(l))
        }
    }

    proof fn lemma_level_bytes_row(self, k: nat, j: nat)
        requires
            self.skip_size >= 2,
            k < self.len(),
            j <= self.levels(),
        ensures
            self.level_bytes(k, j) == self.row_prefix_len(k, j) + self.level_bytes(k + 1, j),
        decreases j,
    {
        if j > 0 {
            let l = (j - 1) as nat;
            self.lemma_level_bytes_row(k, l);
            self.lemma_skip_every(l);
            assert(self.present(k, l) == (k % self.skip_every(l) == 0));
        }
    }

    proof fn lemma_level_bytes_end(self, k: nat, j: nat)
        requires
            k >= self.len(),
        ensures
            self.level_bytes(k, j) == 0,
        decreases j,
    {
        if j > 0 {
            self.lemma_level_bytes_end(k, (j - 1) as nat);
        }
    }

    proof fn lemma_tail_level_bytes(self, k: nat)
        requires
            self.skip_size >= 2,
        ensures
            self.tail_len(k) == self.level_bytes(k, self.levels()),
        decreases self.len() - k,
    {
        if k >= self.len() {
            self.lemma_level_bytes_end(k, self.levels());
        } else {
            self.lemma_tail_level_bytes(k + 1);
            self.lemma_level_bytes_row(k, self.levels());
        }
    }

    proof fn lemma_level_bytes_split(self, j: nat)
        requires
            self.skip_size >= 2,
            j <= self.levels(),
        ensures
            self.level_bytes(0, j) == 12 * self.level_entries(j) + if j == self.levels() && j > 0 {
                8 * multiples(0, self.len(), self.skip_size as nat)
            } else {
                0
            },
        decreases j,
    {
        if j > 0 {
            let l = (j - 1) as nat;
            self.lemma_level_bytes_split(l);
            self.lemma_skip_every(l);
        }
    }

    proof fn lemma_level_entries_total(self, j: nat)
        requires
            self.skip_size >= 2,
            j <= self.levels(),
        ensures
            self.level_entries(j) == entry_total(
                self.len(),
                self.skip_size as nat,
                (self.levels() - j + 1) as nat,
                self.levels(),
            ),
        decreases j,
    {
        let l = self.levels();
        if j > 0 {
            let i = (j - 1) as nat;
            self.lemma_level_entries_total(i);
            self.lemma_skip_every(i);
            lemma_multiples_below(self.len(), self.skip_every(i));
            assert(self.skip_every(i) == span(self.skip_size as nat, (l - j + 1) as nat));
        }
    }

    /// The number of bytes of a written skip list with `n` values, skip size
    /// `s` and `L` levels: twelve for each multiple of `s^k` below `n`, for
    /// every `k` from `1` to `L`, eight more for each multiple of `s` when
    /// there are levels, and the 24 bytes of the trailer.
    pub proof fn lemma_bytes_len_closed_form(self, base: nat)
        requires
            self.writable(),
        ensures
            self.bytes(base).len() == 24 + 12 * entry_total(self.len(), self.skip_size as nat, 1, self.levels())
                + if self.levels() > 0 {
                8 * ceil_div(self.len(), self.skip_size as nat)
            } else {
                0
            },
    {
        self.lemma_bytes_len(base);
        if self.skip_size >= 2 {
            self.lemma_tail_level_bytes(0);
            self.lemma_level_bytes_split(self.levels());
            self.lemma_level_entries_total(self.levels());
            lemma_multiples_below(self.len(), self.skip_size as nat);
        } else {
            assert(self.len() == 0);
            assert(self.len() / (self.skip_size as nat) == 0);
            assert(self.levels() == 0);
            assert(self.tail_len(0) == 0);
        }
    }
}

} // verus!
