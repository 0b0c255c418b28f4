//! The counters of a memory pool, and how they are shown.

use vstd::prelude::*;

verus! {

/// The character of a decimal digit.
pub open spec fn digit(d: nat) -> char {
    (48 + d) as char
}

/// `n` in decimal, without leading zeros.
pub open spec fn decimal(n: nat) -> Seq<char>
    decreases n,
{
    if n < 10 {
        seq![digit(n)]
    } else {
        decimal(n / 10).push(digit(n % 10))
    }
}

/// The text of a decimal digit.
fn digit_text(d: u64) -> (text: &'static str)
    requires
        d < 10,
    ensures
        text@ == seq![digit(d as nat)],
{
    proof {
        reveal_strlit("0");
        reveal_strlit("1");
        reveal_strlit("2");
        reveal_strlit("3");
        reveal_strlit("4");
        reveal_strlit("5");
        reveal_strlit("6");
        reveal_strlit("7");
        reveal_strlit("8");
        reveal_strlit("9");
    }
    let text = match d {
        0 => "0",
        1 => "1",
        2 => "2",
        3 => "3",
        4 => "4",
        5 => "5",
        6 => "6",
        7 => "7",
        8 => "8",
        _ => "9",
    };
    assert(text@ =~= seq![digit(d as nat)]);
    text
}

/// Append `n` in decimal.
fn append_decimal(text: &mut String, n: u64)
    ensures
        final(text)@ == old(text)@ + decimal(n as nat),
    decreases n,
{
    let ghost before = text@;
    if n >= 10 {
        append_decimal(text, n / 10);
    }
    text.append(digit_text(n % 10));
    assert(text@ =~= before + decimal(n as nat));
}

/// Pool statistics snapshot.
#[derive(Debug)]
pub struct PoolStatistics {
    /// Requests that were served.
    pub total_allocations: u64,
    /// Blocks that were freed.
    pub total_deallocations: u64,
    /// Blocks that are allocated now.
    pub current_allocations: usize,
    /// Bytes of all blocks that were ever handed out.
    pub total_allocated_bytes: usize,
    /// The most bytes that were allocated at any one time.
    pub peak_allocated_bytes: usize,
    /// Number of non-contiguous free regions: free blocks that touch count as one.
    pub fragmentation_count: usize,
}

impl Clone for PoolStatistics {
    fn clone(&self) -> (copy: Self)
        ensures
            copy == *self,
    {
        PoolStatistics {
            total_allocations: self.total_allocations,
            total_deallocations: self.total_deallocations,
            current_allocations: self.current_allocations,
            total_allocated_bytes: self.total_allocated_bytes,
            peak_allocated_bytes: self.peak_allocated_bytes,
            fragmentation_count: self.fragmentation_count,
        }
    }
}

impl Default for PoolStatistics {
    fn default() -> (stats: Self)
        ensures
            stats == (PoolStatistics {
                total_allocations: 0,
                total_deallocations: 0,
                current_allocations: 0,
                total_allocated_bytes: 0,
                peak_allocated_bytes: 0,
                fragmentation_count: 0,
            }),
    {
        PoolStatistics {
            total_allocations: 0,
            total_deallocations: 0,
            current_allocations: 0,
            total_allocated_bytes: 0,
            peak_allocated_bytes: 0,
            fragmentation_count: 0,
        }
    }
}

impl PoolStatistics {
    /// The text that shows the counters.
    pub open spec fn shown(self) -> Seq<char> {
        "PoolStatistics { allocs: "@ + decimal(self.total_allocations as nat) + ", deallocs: "@
            + decimal(self.total_deallocations as nat) + ", current: "@ + decimal(
            self.current_allocations as nat,
        ) + ", bytes: "@ + decimal(self.total_allocated_bytes as nat) + ", peak: "@ + decimal(
            self.peak_allocated_bytes as nat,
        ) + " }"@
    }

    /// The counters as text.
    pub fn to_string(&self) -> (text: String)
        ensures
            text@ == self.shown(),
    {
        let mut text = String::from_str("PoolStatistics { allocs: ");
        append_decimal(&mut text, self.total_allocations);
        text.append(", deallocs: ");
        append_decimal(&mut text, self.total_deallocations);
        text.append(", current: ");
        append_decimal(&mut text, self.current_allocations as u64);
        text.append(", bytes: ");
        append_decimal(&mut text, self.total_allocated_bytes as u64);
        text.append(", peak: ");
        append_decimal(&mut text, self.peak_allocated_bytes as u64);
        text.append(" }");
        text
    }
}

/// The number that a text of decimal digits stands for.
pub open spec fn number(text: Seq<char>) -> nat
    decreases text.len(),
{
    if text.len() == 0 {
        0
    } else {
        (10 * number(text.drop_last()) + (text.last() as int - '0' as int)) as nat
    }
}

/// Decimal text reads back as the number it was made from, is made of digits only, and has no
/// leading zero.
pub proof fn law_decimal_reads_back(n: nat)
    ensures
        number(decimal(n)) == n,
        decimal(n).len() >= 1,
        forall|i: int| 0 <= i < decimal(n).len() ==> '0' <= #[trigger] decimal(n)[i] <= '9',
        decimal(n).len() > 1 ==> decimal(n)[0] != '0',
        n > 0 ==> decimal(n)[0] != '0',
    decreases n,
{
    if n < 10 {
        assert(decimal(n).drop_last() =~= Seq::<char>::empty());
        assert(decimal(n).last() == digit(n));
        assert(number(decimal(n).drop_last()) == 0);
    } else {
        law_decimal_reads_back(n / 10);
        assert(decimal(n).drop_last() =~= decimal(n / 10));
    }
}

/// The last digit of a number is its remainder by ten, and the digits before it are those of its
/// tenth.
pub proof fn law_decimal_digit_by_digit(n: nat)
    ensures
        decimal(n).last() as int == '0' as int + n % 10,
        n < 10 ==> decimal(n).len() == 1,
        n >= 10 ==> decimal(n).drop_last() == decimal(n / 10),
{
    if n >= 10 {
        assert(decimal(n).drop_last() =~= decimal(n / 10));
    }
}

/// The text shows the five counters in decimal, each behind its label.
pub proof fn law_text_shows_counters(stats: PoolStatistics)
    ensures
        stats.shown() == "PoolStatistics { allocs: "@ + decimal(stats.total_allocations as nat)
            + ", deallocs: "@ + decimal(stats.total_deallocations as nat) + ", current: "@
            + decimal(stats.current_allocations as nat) + ", bytes: "@ + decimal(
            stats.total_allocated_bytes as nat,
        ) + ", peak: "@ + decimal(stats.peak_allocated_bytes as nat) + " }"@,
{
}

/// Behind the same label, digits that end where no digit follows are the same in equal texts, and
/// so is what follows.
proof fn lemma_digits_behind(label: Seq<char>, x: Seq<char>, u: Seq<char>, y: Seq<char>, v: Seq<char>)
    requires
        label + (x + u) == label + (y + v),
        forall|i: int| 0 <= i < x.len() ==> '0' <= #[trigger] x[i] <= '9',
        forall|i: int| 0 <= i < y.len() ==> '0' <= #[trigger] y[i] <= '9',
        u.len() > 0,
        v.len() > 0,
        !('0' <= u[0] <= '9'),
        !('0' <= v[0] <= '9'),
    ensures
        x == y,
        u == v,
{
    let a = label + (x + u);
    let b = label + (y + v);
    let n = label.len() as int;
    if x.len() < y.len() {
        assert(a[n + x.len()] == u[0]);
        assert(b[n + x.len()] == y[x.len() as int]);
        assert(false);
    }
    if y.len() < x.len() {
        assert(b[n + y.len()] == v[0]);
        assert(a[n + y.len()] == x[y.len() as int]);
        assert(false);
    }
    assert forall|i: int| 0 <= i < x.len() implies x[i] == y[i] by {
        assert(a[n + i] == x[i] && b[n + i] == y[i]);
    }
    assert(u.len() == a.len() - n - x.len() && v.len() == b.len() - n - y.len());
    assert forall|i: int| 0 <= i < u.len() implies u[i] == v[i] by {
        assert(a[n + x.len() + i] == u[i] && b[n + x.len() + i] == v[i]);
    }
    assert(x =~= y && u =~= v);
}

proof fn lemma_concat_associates(p: Seq<char>, x: Seq<char>, u: Seq<char>)
    ensures
        (p + x) + u == p + (x + u),
{
    assert((p + x) + u =~= p + (x + u));
}

/// A counter behind a label, and what follows it.
spec fn behind(label: Seq<char>, n: nat, rest: Seq<char>) -> Seq<char> {
    label + (decimal(n) + rest)
}

/// The text that follows each counter.
spec fn rests(stats: PoolStatistics) -> (Seq<char>, Seq<char>, Seq<char>, Seq<char>) {
    let fourth = behind(", peak: "@, stats.peak_allocated_bytes as nat, " }"@);
    let third = behind(", bytes: "@, stats.total_allocated_bytes as nat, fourth);
    let second = behind(", current: "@, stats.current_allocations as nat, third);
    let first = behind(", deallocs: "@, stats.total_deallocations as nat, second);
    (first, second, third, fourth)
}

proof fn lemma_label_then_counter(p: Seq<char>, label: Seq<char>, n: nat, rest: Seq<char>)
    ensures
        p + label + decimal(n) + rest == p + behind(label, n, rest),
{
    lemma_concat_associates(p + label, decimal(n), rest);
    lemma_concat_associates(p, label, decimal(n) + rest);
}

proof fn lemma_shown_nests(stats: PoolStatistics)
    ensures
        stats.shown() == behind(
            "PoolStatistics { allocs: "@,
            stats.total_allocations as nat,
            rests(stats).0,
        ),
{
    let p1 = "PoolStatistics { allocs: "@ + decimal(stats.total_allocations as nat);
    let p2 = p1 + ", deallocs: "@ + decimal(stats.total_deallocations as nat);
    let p3 = p2 + ", current: "@ + decimal(stats.current_allocations as nat);
    let p4 = p3 + ", bytes: "@ + decimal(stats.total_allocated_bytes as nat);
    let (r1, r2, r3, r4) = rests(stats);
    lemma_label_then_counter(p4, ", peak: "@, stats.peak_allocated_bytes as nat, " }"@);
    lemma_label_then_counter(p3, ", bytes: "@, stats.total_allocated_bytes as nat, r4);
    lemma_label_then_counter(p2, ", current: "@, stats.current_allocations as nat, r3);
    lemma_label_then_counter(p1, ", deallocs: "@, stats.total_deallocations as nat, r2);
    lemma_concat_associates(
        "PoolStatistics { allocs: "@,
        decimal(stats.total_allocations as nat),
        r1,
    );
}

proof fn lemma_same_counter(label: Seq<char>, m: nat, u: Seq<char>, n: nat, v: Seq<char>)
    requires
        behind(label, m, u) == behind(label, n, v),
        u.len() > 0,
        v.len() > 0,
        !('0' <= u[0] <= '9'),
        !('0' <= v[0] <= '9'),
    ensures
        m == n,
        u == v,
{
    law_decimal_reads_back(m);
    law_decimal_reads_back(n);
    lemma_digits_behind(label, decimal(m), u, decimal(n), v);
}

proof fn lemma_rests_start(stats: PoolStatistics)
    ensures
        ({
            let (r1, r2, r3, r4) = rests(stats);
            &&& r1.len() > 0 && r1[0] == ','
            &&& r2.len() > 0 && r2[0] == ','
            &&& r3.len() > 0 && r3[0] == ','
            &&& r4.len() > 0 && r4[0] == ','
        }),
{
    reveal_strlit(", deallocs: ");
    reveal_strlit(", current: ");
    reveal_strlit(", bytes: ");
    reveal_strlit(", peak: ");
}

/// The text tells the counters: where two texts are the same, so are the five counters that are
/// shown.
pub proof fn law_text_tells_counters(a: PoolStatistics, b: PoolStatistics)
    requires
        a.shown() == b.shown(),
    ensures
        a.total_allocations == b.total_allocations,
        a.total_deallocations == b.total_deallocations,
        a.current_allocations == b.current_allocations,
        a.total_allocated_bytes == b.total_allocated_bytes,
        a.peak_allocated_bytes == b.peak_allocated_bytes,
{
    lemma_shown_nests(a);
    lemma_shown_nests(b);
    lemma_rests_start(a);
    lemma_rests_start(b);
    let (u1, u2, u3, u4) = rests(a);
    let (v1, v2, v3, v4) = rests(b);
    lemma_same_counter(
        "PoolStatistics { allocs: "@,
        a.total_allocations as nat,
        u1,
        b.total_allocations as nat,
        v1,
    );
    lemma_same_counter(
        ", deallocs: "@,
        a.total_deallocations as nat,
        u2,
        b.total_deallocations as nat,
        v2,
    );
    lemma_same_counter(
        ", current: "@,
        a.current_allocations as nat,
        u3,
        b.current_allocations as nat,
        v3,
    );
    lemma_same_counter(
        ", bytes: "@,
        a.total_allocated_bytes as nat,
        u4,
        b.total_allocated_bytes as nat,
        v4,
    );
    reveal_strlit(" }");
    lemma_same_counter(
        ", peak: "@,
        a.peak_allocated_bytes as nat,
        " }"@,
        b.peak_allocated_bytes as nat,
        " }"@,
    );
}

} // verus!
