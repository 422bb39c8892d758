//! Sound: from what Discord delivers to what the recogniser takes.

use vstd::prelude::*;

verus! {

/// A quotient, rounded towards zero.
pub open spec fn truncated(sum: int, n: int) -> int {
    if sum >= 0 {
        sum / n
    } else {
        -((-sum) / n)
    }
}

/// The sum of some samples.
pub open spec fn total(samples: Seq<i16>) -> int
    decreases samples.len(),
{
    if samples.len() == 0 {
        0
    } else {
        total(samples.drop_last()) + samples.last()
    }
}

/// The mean of some samples, rounded towards zero.
pub open spec fn mean(samples: Seq<i16>) -> i16 {
    truncated(total(samples), samples.len() as int) as i16
}

/// The samples in groups of `n`, of which the last may be shorter.
pub open spec fn group(samples: Seq<i16>, n: int, i: int) -> Seq<i16> {
    samples.subrange(
        n * i,
        if n * i + n <= samples.len() {
            n * i + n
        } else {
            samples.len() as int
        },
    )
}

/// One channel out of two that take turns: the mean of each pair. A sample without a
/// partner at the end is dropped.
pub open spec fn mono(stereo: Seq<i16>) -> Seq<i16> {
    Seq::new(stereo.len() / 2, |i: int| mean(group(stereo, 2, i)))
}

/// A third of the sample rate: the mean of each three samples, and of what is left over.
pub open spec fn thirds(samples: Seq<i16>) -> Seq<i16> {
    Seq::new((samples.len() + 2) / 3, |i: int| mean(group(samples, 3, i)))
}

/// The quotient of a sum of samples by their number.
fn divide(sum: i32, n: i32) -> (r: i16)
    requires
        0 < n <= 3,
        -32768 * n <= sum <= 32767 * n,
    ensures
        r == truncated(sum as int, n as int),
{
    if sum >= 0 {
        let q: i32 = sum / n;
        assert(0 <= q <= 32767) by (nonlinear_arith)
            requires
                q == sum / n,
                0 <= sum <= 32767 * n,
                n > 0,
        ;
        q as i16
    } else {
        let q: i32 = (-sum) / n;
        assert(0 <= q <= 32768) by (nonlinear_arith)
            requires
                q == (-sum) / (n as int),
                0 <= -sum <= 32768 * n,
                n > 0,
        ;
        (-q) as i16
    }
}

/// The mean of samples `from..to`.
fn mean_of(samples: &[i16], from: usize, to: usize) -> (r: i16)
    requires
        from < to <= samples@.len(),
        to - from <= 3,
    ensures
        r == mean(samples@.subrange(from as int, to as int)),
        r == truncated(total(samples@.subrange(from as int, to as int)), to - from),
{
    let mut sum: i32 = 0;
    let mut i: usize = from;
    assert(samples@.subrange(from as int, from as int) =~= seq![]);
    while i < to
        invariant
            from <= i <= to <= samples@.len(),
            to - from <= 3,
            sum == total(samples@.subrange(from as int, i as int)),
            -32768 * (i - from) <= sum <= 32767 * (i - from),
        decreases to - i,
    {
        assert(samples@.subrange(from as int, i + 1).drop_last() =~= samples@.subrange(
            from as int,
            i as int,
        ));
        sum = sum + samples[i] as i32;
        i += 1;
    }
    divide(sum, (to - from) as i32)
}

/// Turns 48 kHz stereo into 16 kHz mono.
pub fn downsample_stereo_48k_to_mono_16k(stereo: &[i16]) -> (r: Vec<i16>)
    ensures
        r@ == thirds(mono(stereo@)),
{
    let n: usize = stereo.len();
    let mut mono_48k: Vec<i16> = Vec::new();
    let mut i: usize = 0;
    while n - i >= 2
        invariant
            n == stereo@.len(),
            i == 2 * mono_48k@.len(),
            i <= n,
            mono_48k@ =~= mono(stereo@).take(mono_48k@.len() as int),
            mono_48k@.len() <= n / 2,
        decreases n - i,
    {
        mono_48k.push(mean_of(stereo, i, i + 2));
        i += 2;
    }
    assert(mono_48k@ =~= mono(stereo@));
    let m: usize = mono_48k.len();
    let mut out: Vec<i16> = Vec::new();
    let mut j: usize = 0;
    while j < m
        invariant
            mono_48k@ == mono(stereo@),
            m == mono_48k@.len(),
            j == 3 * out@.len() || j == m && out@.len() == (m + 2) / 3,
            j <= m,
            out@ =~= thirds(mono_48k@).take(out@.len() as int),
            out@.len() <= (m + 2) / 3,
        decreases m - j,
    {
        let to: usize = if m - j >= 3 {
            j + 3
        } else {
            m
        };
        out.push(mean_of(mono_48k.as_slice(), j, to));
        j = to;
    }
    assert(out@ =~= thirds(mono(stereo@)));
    out
}

/// Sound of `n` samples becomes one of a sixth of them, rounded up to a whole group.
pub proof fn law_downsampled_length(stereo: Seq<i16>)
    ensures
        thirds(mono(stereo)).len() == (stereo.len() / 2 + 2) / 3,
{
}

/// What is between two bounds stays between them. So silence stays silence, and a
/// constant level stays as it is.
pub proof fn law_downsampled_stays_in_range(stereo: Seq<i16>, low: i16, high: i16)
    requires
        forall|i: int| 0 <= i < stereo.len() ==> low <= #[trigger] stereo[i] <= high,
    ensures
        forall|i: int|
            0 <= i < thirds(mono(stereo)).len() ==> low <= #[trigger] thirds(mono(stereo))[i]
                <= high,
{
    let m = mono(stereo);
    assert forall|i: int| 0 <= i < m.len() implies low <= #[trigger] m[i] <= high by {
        lemma_mean_in_range(group(stereo, 2, i), low, high);
    }
    assert forall|i: int| 0 <= i < thirds(m).len() implies low <= #[trigger] thirds(m)[i]
        <= high by {
        lemma_mean_in_range(group(m, 3, i), low, high);
    }
}

proof fn lemma_mean_in_range(samples: Seq<i16>, low: i16, high: i16)
    requires
        0 < samples.len() <= 3,
        forall|i: int| 0 <= i < samples.len() ==> low <= #[trigger] samples[i] <= high,
    ensures
        low <= mean(samples) <= high,
{
    reveal_with_fuel(total, 4);
    let n = samples.len() as int;
    let sum = total(samples);
    if n == 1 {
        assert(sum == samples[0]);
        assert(low <= truncated(sum, 1) <= high);
    } else if n == 2 {
        assert(sum == samples[0] + samples[1]);
        assert(low <= truncated(sum, 2) <= high);
    } else {
        assert(sum == samples[0] + samples[1] + samples[2]);
        assert(low <= truncated(sum, 3) <= high);
    }
}

/// Whether `q` is the quotient of `sum` by `n`, rounded towards zero.
pub open spec fn is_quotient(q: int, sum: int, n: int) -> bool {
    if sum >= 0 {
        n * q <= sum < n * q + n
    } else {
        n * q - n < sum <= n * q
    }
}

/// What each sample of the result is. One of the single channel is the mean of a sample of
/// each side; one of the result is the mean of three of those, and the last one of what is
/// left over. All are rounded towards zero.
pub proof fn law_downsampled_samples(stereo: Seq<i16>)
    ensures
        mono(stereo).len() == stereo.len() / 2,
        forall|i: int|
            0 <= i < stereo.len() / 2 ==> is_quotient(
                (#[trigger] mono(stereo)[i]) as int,
                stereo[2 * i] + stereo[2 * i + 1],
                2,
            ),
        ({
            let m = mono(stereo);
            let r = thirds(m);
            &&& forall|i: int|
                0 <= i && 3 * i + 2 < m.len() ==> is_quotient(
                    (#[trigger] r[i]) as int,
                    m[3 * i] + m[3 * i + 1] + m[3 * i + 2],
                    3,
                )
            &&& m.len() % 3 == 1 ==> r.last() == m.last()
            &&& m.len() % 3 == 2 ==> is_quotient(r.last() as int, m[m.len() - 2] + m.last(), 2)
        }),
{
    let m = mono(stereo);
    let r = thirds(m);
    reveal_with_fuel(total, 4);
    assert forall|i: int| 0 <= i < stereo.len() / 2 implies is_quotient(
        (#[trigger] m[i]) as int,
        stereo[2 * i] + stereo[2 * i + 1],
        2,
    ) by {
        let g = group(stereo, 2, i);
        assert(g.len() == 2);
        assert(total(g) == stereo[2 * i] + stereo[2 * i + 1]);
    }
    assert forall|i: int| 0 <= i && 3 * i + 2 < m.len() implies is_quotient(
        (#[trigger] r[i]) as int,
        m[3 * i] + m[3 * i + 1] + m[3 * i + 2],
        3,
    ) by {
        let g = group(m, 3, i);
        assert(g.len() == 3);
        assert(total(g) == m[3 * i] + m[3 * i + 1] + m[3 * i + 2]);
    }
    if m.len() % 3 != 0 {
        let i = r.len() - 1;
        let g = group(m, 3, i);
        assert(g.len() == m.len() % 3);
        if m.len() % 3 == 1 {
            assert(total(g) == m.last());
        } else {
            assert(total(g) == m[m.len() - 2] + m.last());
        }
    }
}

}
