//! Analysis reports.
use crate::arithmetic::{
    fused, fused_of, lawful, over, over_of, plus, plus_of, tally, tally_of, widen, widen_of,
    Arithmetic,
};
use crate::binary::{
    is_sample_finite, is_sample_less, is_sample_nan, sample_at_most, sample_finite, sample_less,
    sample_nan, ZERO,
};
use crate::ir::{Error, Extent, Rect};
use crate::ports::Ports;
use crate::value::ResourceValue;
use vstd::prelude::*;

verus! {

/// What one channel holds: the range, the sum and the sum of squares of its finite samples, how many
/// those are, and how many are not finite.
#[derive(Debug, Clone, Copy, PartialEq, Eq, Structural)]
pub struct ChannelStats {
    pub min: Option<u32>,
    pub max: Option<u32>,
    pub sum: u64,
    pub sum_sq: u64,
    pub finite: u64,
    pub nonfinite: u64,
}

impl ChannelStats {
    /// Whether all samples are finite.
    #[verifier::allow_in_spec]
    pub fn all_finite(&self) -> bool
        returns
            self.nonfinite == 0,
    {
        self.nonfinite == 0
    }

    /// The mean of the finite samples, if there are any.
    pub open spec fn mean_of<A: Arithmetic>(self) -> Option<u64> {
        if self.finite == 0 {
            None
        } else {
            Some(over_of::<A>(self.sum, tally_of::<A>(self.finite)))
        }
    }

    /// Compute the mean of the finite samples, if there are any.
    pub fn mean<A: Arithmetic>(&self) -> (r: Option<u64>)
        requires
            lawful::<A>(),
        ensures
            r == self.mean_of::<A>(),
    {
        if self.finite == 0 {
            None
        } else {
            Some(over::<A>(self.sum, tally::<A>(self.finite)))
        }
    }
}

/// What a channel without samples holds.
#[verifier::allow_in_spec]
pub fn no_samples() -> ChannelStats
    returns
        (ChannelStats { min: None, max: None, sum: ZERO, sum_sq: ZERO, finite: 0, nonfinite: 0 }),
{
    ChannelStats { min: None, max: None, sum: ZERO, sum_sq: ZERO, finite: 0, nonfinite: 0 }
}

/// The lesser of a minimum so far and a sample; the earlier of two equals.
pub open spec fn lowered(min: Option<u32>, sample: u32) -> Option<u32> {
    match min {
        None => Some(sample),
        Some(m) => if sample_less(sample, m) {
            Some(sample)
        } else {
            Some(m)
        },
    }
}

/// The greater of a maximum so far and a sample; the earlier of two equals.
pub open spec fn raised(max: Option<u32>, sample: u32) -> Option<u32> {
    match max {
        None => Some(sample),
        Some(m) => if sample_less(m, sample) {
            Some(sample)
        } else {
            Some(m)
        },
    }
}

/// What a channel holds after one more sample.
pub open spec fn with_sample<A: Arithmetic>(stats: ChannelStats, sample: u32) -> ChannelStats {
    if sample_finite(sample) {
        ChannelStats {
            min: lowered(stats.min, sample),
            max: raised(stats.max, sample),
            sum: plus_of::<A>(stats.sum, widen_of::<A>(sample)),
            sum_sq: fused_of::<A>(widen_of::<A>(sample), widen_of::<A>(sample), stats.sum_sq),
            finite: (stats.finite + 1) as u64,
            nonfinite: stats.nonfinite,
        }
    } else {
        ChannelStats { nonfinite: (stats.nonfinite + 1) as u64, ..stats }
    }
}

/// What channel `c` holds among the first `n` samples of an interleaved buffer, taken in order.
pub open spec fn stats_of<A: Arithmetic>(samples: Seq<u32>, channels: int, c: int, n: nat) -> ChannelStats
    decreases n,
{
    if n == 0 {
        no_samples()
    } else {
        let before = stats_of::<A>(samples, channels, c, (n - 1) as nat);
        if (n - 1) % channels == c {
            with_sample::<A>(before, samples[n - 1])
        } else {
            before
        }
    }
}

/// What every channel of an interleaved buffer holds.
pub open spec fn all_stats_of<A: Arithmetic>(samples: Seq<u32>, channels: u32) -> Seq<ChannelStats> {
    Seq::new(
        channels as nat,
        |c: int| stats_of::<A>(samples, channels as int, c, samples.len()),
    )
}

/// A channel counts no more samples than there are.
proof fn lemma_counts<A: Arithmetic>(samples: Seq<u32>, channels: int, c: int, n: nat)
    requires
        n <= u64::MAX,
    ensures
        stats_of::<A>(samples, channels, c, n).finite + stats_of::<A>(samples, channels, c, n).nonfinite
            <= n,
    decreases n,
{
    if n > 0 {
        lemma_counts::<A>(samples, channels, c, (n - 1) as nat);
    }
}

/// A channel counts no sample as not finite exactly where all of its samples are finite.
pub proof fn lemma_nonfinite<A: Arithmetic>(samples: Seq<u32>, channels: int, c: int, n: nat)
    requires
        n <= u64::MAX,
    ensures
        stats_of::<A>(samples, channels, c, n).nonfinite == 0 <==> forall|i: int|
            0 <= i < n && i % channels == c ==> sample_finite(#[trigger] samples[i]),
    decreases n,
{
    if n > 0 {
        lemma_nonfinite::<A>(samples, channels, c, (n - 1) as nat);
        lemma_counts::<A>(samples, channels, c, (n - 1) as nat);
        if (n - 1) % channels == c && !sample_finite(samples[n - 1]) {
            assert(!(forall|i: int|
                0 <= i < n && i % channels == c ==> sample_finite(#[trigger] samples[i])));
        }
    }
}

/// Add a sample to what a channel holds.
fn record<A: Arithmetic>(stats: ChannelStats, sample: u32) -> (r: ChannelStats)
    requires
        lawful::<A>(),
        stats.finite < u64::MAX,
        stats.nonfinite < u64::MAX,
    ensures
        r == with_sample::<A>(stats, sample),
{
    if !is_sample_finite(sample) {
        return ChannelStats { nonfinite: stats.nonfinite + 1, ..stats };
    }
    let min: u32 = match stats.min {
        None => sample,
        Some(m) => if is_sample_less(sample, m) {
            sample
        } else {
            m
        },
    };
    let max: u32 = match stats.max {
        None => sample,
        Some(m) => if is_sample_less(m, sample) {
            sample
        } else {
            m
        },
    };
    let value: u64 = widen::<A>(sample);
    ChannelStats {
        min: Some(min),
        max: Some(max),
        sum: plus::<A>(stats.sum, value),
        sum_sq: fused::<A>(value, value, stats.sum_sq),
        finite: stats.finite + 1,
        nonfinite: stats.nonfinite,
    }
}

/// Summarise every channel of an interleaved buffer.
pub fn channel_statistics<A: Arithmetic>(samples: &Vec<u32>, channels: u32) -> (stats: Vec<ChannelStats>)
    requires
        lawful::<A>(),
    ensures
        stats@ == all_stats_of::<A>(samples@, channels),
{
    let mut stats: Vec<ChannelStats> = Vec::new();
    let mut c: u32 = 0;
    while c < channels
        invariant
            c <= channels,
            stats@.len() == c,
            forall|j: int| 0 <= j < c ==> #[trigger] stats@[j] == no_samples(),
        decreases channels - c,
    {
        stats.push(no_samples());
        c = c + 1;
    }
    if channels == 0 {
        return stats;
    }
    let len: usize = samples.len();
    let width: usize = stats.len();
    let mut i: usize = 0;
    while i < len
        invariant
            lawful::<A>(),
            channels > 0,
            width == channels,
            len == samples@.len(),
            i <= len,
            stats@.len() == channels,
            forall|j: int|
                0 <= j < channels ==> #[trigger] stats@[j] == stats_of::<A>(
                    samples@,
                    channels as int,
                    j,
                    i as nat,
                ),
        decreases len - i,
    {
        let c: usize = i % width;
        proof {
            lemma_counts::<A>(samples@, channels as int, c as int, i as nat);
        }
        let entry: ChannelStats = record::<A>(stats[c], samples[i]);
        stats[c] = entry;
        i = i + 1;
        assert forall|j: int| 0 <= j < channels implies #[trigger] stats@[j] == stats_of::<A>(
            samples@,
            channels as int,
            j,
            i as nat,
        ) by {}
    }
    stats
}

/// Every channel holds finite samples alone.
pub open spec fn stats_finite(stats: Seq<ChannelStats>) -> bool {
    forall|c: int| 0 <= c < stats.len() ==> (#[trigger] stats[c]).all_finite()
}

/// Whether every channel holds finite samples alone.
pub fn all_channels_finite(stats: &Vec<ChannelStats>) -> (r: bool)
    ensures
        r == stats_finite(stats@),
{
    let mut c: usize = 0;
    while c < stats.len()
        invariant
            c <= stats@.len(),
            forall|j: int| 0 <= j < c ==> (#[trigger] stats@[j]).all_finite(),
        decreases stats@.len() - c,
    {
        if !stats[c].all_finite() {
            return false;
        }
        c = c + 1;
    }
    true
}

/// The NaN pattern that stands for every NaN.
pub const CANONICAL_NAN_BITS: u32 = 0x7fc0_0000;

/// A sample with its NaN payload dropped.
pub open spec fn canonical(sample: u32) -> u32 {
    if sample_nan(sample) {
        CANONICAL_NAN_BITS
    } else {
        sample
    }
}

/// The four bytes of a word, the least significant first.
pub open spec fn word_bytes(word: u32) -> Seq<u8> {
    seq![
        (word % 0x100) as u8,
        (word / 0x100 % 0x100) as u8,
        (word / 0x1_0000 % 0x100) as u8,
        (word / 0x100_0000) as u8,
    ]
}

/// The bytes of words, one after the other.
pub open spec fn words_bytes(words: Seq<u32>) -> Seq<u8>
    decreases words.len(),
{
    if words.len() == 0 {
        Seq::empty()
    } else {
        words_bytes(words.drop_last()) + word_bytes(words.last())
    }
}

/// A plane as words: its size, its channels, and its samples without NaN payloads.
pub open spec fn content_words(extent: Extent, channels: u32, samples: Seq<u32>) -> Seq<u32> {
    seq![extent.width, extent.height, channels] + samples.map_values(|s: u32| canonical(s))
}

/// The bytes by which a plane's content is told from another's.
pub open spec fn content_of(extent: Extent, channels: u32, samples: Seq<u32>) -> Seq<u8> {
    words_bytes(content_words(extent, channels, samples))
}

/// Append a word's bytes.
fn push_word(bytes: &mut Vec<u8>, word: u32)
    ensures
        final(bytes)@ == old(bytes)@ + word_bytes(word),
{
    bytes.push((word % 0x100) as u8);
    bytes.push((word / 0x100 % 0x100) as u8);
    bytes.push((word / 0x1_0000 % 0x100) as u8);
    bytes.push((word / 0x100_0000) as u8);
}

/// Encode a plane for its content hash: size, channels, then every sample, least significant byte
/// first, with one pattern for every NaN.
pub fn content_bytes(extent: Extent, channels: u32, samples: &Vec<u32>) -> (bytes: Vec<u8>)
    ensures
        bytes@ == content_of(extent, channels, samples@),
{
    let ghost words = content_words(extent, channels, samples@);
    let mut bytes: Vec<u8> = Vec::new();
    push_word(&mut bytes, extent.width);
    push_word(&mut bytes, extent.height);
    push_word(&mut bytes, channels);
    proof {
        reveal_with_fuel(words_bytes, 4);
        assert(words.take(3).drop_last() =~= words.take(2));
        assert(words.take(2).drop_last() =~= words.take(1));
        assert(words.take(1).drop_last() =~= words.take(0));
        assert(bytes@ =~= words_bytes(words.take(3)));
    }
    let mut i: usize = 0;
    while i < samples.len()
        invariant
            words == content_words(extent, channels, samples@),
            i <= samples@.len(),
            bytes@ == words_bytes(words.take(i + 3)),
        decreases samples@.len() - i,
    {
        let bits: u32 = if is_sample_nan(samples[i]) {
            CANONICAL_NAN_BITS
        } else {
            samples[i]
        };
        push_word(&mut bytes, bits);
        assert(words.take(i + 4).drop_last() =~= words.take(i + 3));
        assert(words[i + 3] == bits);
        i = i + 1;
    }
    assert(words.take(i + 3) =~= words);
    bytes
}

/// How content hashes are made: any function of the bytes.
pub trait Digest {
    /// The printed hash of these bytes.
    fn digest(bytes: &Vec<u8>) -> String;
}

/// Every content has a hash, and equal contents have one.
#[verifier::opaque]
pub open spec fn steady<H: Digest>() -> bool {
    &&& forall|b: &Vec<u8>| #[trigger] call_requires(H::digest, (b,))
    &&& forall|b: &Vec<u8>, c: &Vec<u8>, r: String, s: String|
        #[trigger] call_ensures(H::digest, (b,), r) && #[trigger] call_ensures(H::digest, (c,), s)
            && b@ == c@ ==> r@ == s@
}

/// The hash `text` is one of these bytes.
pub open spec fn is_hash<H: Digest>(bytes: Seq<u8>, text: Seq<char>) -> bool {
    exists|b: &Vec<u8>, r: String|
        b@ == bytes && #[trigger] call_ensures(H::digest, (b,), r) && r@ == text
}

/// The hash of these bytes.
pub open spec fn hash_of<H: Digest>(bytes: Seq<u8>) -> Seq<char> {
    choose|text: Seq<char>| is_hash::<H>(bytes, text)
}

/// Hash bytes.
fn hashed<H: Digest>(bytes: &Vec<u8>) -> (r: String)
    requires
        steady::<H>(),
    ensures
        r@ == hash_of::<H>(bytes@),
{
    proof {
        reveal(steady);
    }
    let r: String = H::digest(bytes);
    assert(is_hash::<H>(bytes@, r@));
    r
}

/// The hash of a plane's content.
pub fn content_hash<H: Digest>(extent: Extent, channels: u32, samples: &Vec<u32>) -> (r: String)
    requires
        steady::<H>(),
    ensures
        r@ == hash_of::<H>(content_of(extent, channels, samples@)),
{
    let bytes: Vec<u8> = content_bytes(extent, channels, samples);
    hashed::<H>(&bytes)
}

/// How far two images are apart: the greatest, the mean and the root mean square of the absolute
/// differences, the threshold of a change, how many pixels changed, and the box about them.
#[derive(Debug, Clone, Copy, PartialEq, Eq, Structural)]
pub struct DiffMetrics {
    pub max_abs_error: u64,
    pub mean_abs_error: u64,
    pub rms_error: u64,
    pub threshold: u64,
    pub changed_count: u64,
    pub changed_bounds: Option<Rect>,
}

/// The energy of every band of an image, finest first, how many samples each has, and the total.
#[derive(Debug, Clone, PartialEq, Eq)]
pub struct FrequencyEnergyData {
    pub decomposition: &'static str,
    pub bands: u32,
    pub band_energy: Vec<u64>,
    pub band_pixels: Vec<u64>,
    pub total_energy: u64,
}

/// What the band energies of an image are.
pub ghost struct EnergyView {
    pub decomposition: &'static str,
    pub bands: u32,
    pub band_energy: Seq<u64>,
    pub band_pixels: Seq<u64>,
    pub total_energy: u64,
}

impl View for FrequencyEnergyData {
    type V = EnergyView;

    open spec fn view(&self) -> EnergyView {
        EnergyView {
            decomposition: self.decomposition,
            bands: self.bands,
            band_energy: self.band_energy@,
            band_pixels: self.band_pixels@,
            total_energy: self.total_energy,
        }
    }
}

/// What a failed check means for the run.
#[derive(Debug, Clone, Copy, PartialEq, Eq, Structural)]
pub enum AssertionSeverity {
    Error,
    Warning,
    Metric,
}

impl AssertionSeverity {
    /// Whether a failed check of this severity fails the run.
    #[verifier::allow_in_spec]
    pub fn fails_run(self) -> bool
        returns
            self == AssertionSeverity::Error,
    {
        match self {
            AssertionSeverity::Error => true,
            _ => false,
        }
    }
}

/// The outcome of a check: whether it passed, how many violations there were where it did not, and
/// the worst of them with its place.
#[derive(Debug, Clone, Copy, PartialEq, Eq)]
pub struct AssertionOutcome {
    pub op: &'static str,
    pub passed: bool,
    pub severity: AssertionSeverity,
    pub violations: Option<u64>,
    pub worst_value: Option<u64>,
    pub worst_pixel: Option<(i64, i64)>,
}

/// A report on a resource.
#[derive(Debug, Clone, PartialEq, Eq)]
pub struct Report {
    pub extent: Extent,
    pub channels: u32,
    pub channel_stats: Vec<ChannelStats>,
    pub all_finite: bool,
    pub content_hash: String,
    pub diff: Option<DiffMetrics>,
    pub assertion: Option<AssertionOutcome>,
    pub frequency_energy: Option<FrequencyEnergyData>,
}

/// What a report says.
pub ghost struct ReportView {
    pub extent: Extent,
    pub channels: u32,
    pub channel_stats: Seq<ChannelStats>,
    pub all_finite: bool,
    pub content_hash: Seq<char>,
    pub diff: Option<DiffMetrics>,
    pub assertion: Option<AssertionOutcome>,
    pub frequency_energy: Option<EnergyView>,
}

impl View for Report {
    type V = ReportView;

    open spec fn view(&self) -> ReportView {
        ReportView {
            extent: self.extent,
            channels: self.channels,
            channel_stats: self.channel_stats@,
            all_finite: self.all_finite,
            content_hash: self.content_hash@,
            diff: self.diff,
            assertion: self.assertion,
            frequency_energy: match self.frequency_energy {
                Some(e) => Some(e@),
                None => None,
            },
        }
    }
}

/// What an analysis produces: resources and reports, each under its port.
#[derive(Debug)]
pub struct Findings {
    pub values: Ports<ResourceValue>,
    pub reports: Ports<Report>,
}

/// The result is the expected refusal, or the expected report under `report` and nothing else.
pub open spec fn gives_report(r: Result<Findings, Error>, expected: Result<ReportView, Error>) -> bool {
    match (r, expected) {
        (Ok(findings), Ok(report)) => {
            &&& findings.values@ == Map::<Seq<char>, ResourceValue>::empty()
            &&& findings.reports@.dom() == Set::empty().insert("report"@)
            &&& findings.reports@["report"@]@ == report
        },
        (Err(e), Err(f)) => e == f,
        _ => false,
    }
}

/// A report alone.
pub fn report_alone(report: Report) -> (r: Findings)
    ensures
        gives_report(Ok(r), Ok(report@)),
{
    let mut reports: Ports<Report> = Ports::new();
    reports.insert("report".to_owned(), report);
    Findings { values: Ports::new(), reports }
}

/// A word's bytes determine it.
proof fn lemma_word_bytes_injective(a: u32, b: u32)
    requires
        word_bytes(a) == word_bytes(b),
    ensures
        a == b,
{
}

/// The bytes of words are four times as many, and determine them.
proof fn lemma_words_bytes_injective(a: Seq<u32>, b: Seq<u32>)
    requires
        words_bytes(a) == words_bytes(b),
    ensures
        a == b,
    decreases a.len(),
{
    lemma_words_bytes_len(a);
    lemma_words_bytes_len(b);
    if a.len() > 0 {
        let x = words_bytes(a);
        let cut = 4 * (a.len() - 1);
        lemma_words_bytes_len(a.drop_last());
        lemma_words_bytes_len(b.drop_last());
        assert(x.subrange(0, cut) =~= words_bytes(a.drop_last()));
        assert(words_bytes(b).subrange(0, cut) =~= words_bytes(b.drop_last()));
        assert(x.subrange(cut, cut + 4) =~= word_bytes(a.last()));
        assert(words_bytes(b).subrange(cut, cut + 4) =~= word_bytes(b.last()));
        lemma_words_bytes_injective(a.drop_last(), b.drop_last());
        lemma_word_bytes_injective(a.last(), b.last());
        assert(a =~= a.drop_last().push(a.last()));
        assert(b =~= b.drop_last().push(b.last()));
    } else {
        assert(a =~= b);
    }
}

/// Words have four bytes each.
proof fn lemma_words_bytes_len(words: Seq<u32>)
    ensures
        words_bytes(words).len() == 4 * words.len(),
    decreases words.len(),
{
    if words.len() > 0 {
        lemma_words_bytes_len(words.drop_last());
    }
}

/// The content bytes tell planes apart: equal bytes come of one size, one channel count, and samples
/// that differ in NaN payloads at most.
pub proof fn law_content_tells_apart(
    extent: Extent,
    channels: u32,
    samples: Seq<u32>,
    other_extent: Extent,
    other_channels: u32,
    other_samples: Seq<u32>,
)
    requires
        content_of(extent, channels, samples) == content_of(
            other_extent,
            other_channels,
            other_samples,
        ),
    ensures
        extent == other_extent,
        channels == other_channels,
        samples.len() == other_samples.len(),
        forall|i: int|
            0 <= i < samples.len() ==> canonical(#[trigger] samples[i]) == canonical(other_samples[i]),
{
    let a = content_words(extent, channels, samples);
    let b = content_words(other_extent, other_channels, other_samples);
    lemma_words_bytes_injective(a, b);
    assert(a[0] == b[0] && a[1] == b[1] && a[2] == b[2]);
    assert(a.len() == samples.len() + 3);
    assert(b.len() == other_samples.len() + 3);
    assert forall|i: int| 0 <= i < samples.len() implies canonical(#[trigger] samples[i]) == canonical(
        other_samples[i],
    ) by {
        assert(a[i + 3] == canonical(samples[i]));
        assert(b[i + 3] == canonical(other_samples[i]));
    }
}

/// The payload of a NaN makes no difference to the content bytes.
pub proof fn law_content_ignores_nan_payload(
    extent: Extent,
    channels: u32,
    samples: Seq<u32>,
    i: int,
    payload: u32,
)
    requires
        0 <= i < samples.len(),
        sample_nan(samples[i]),
        sample_nan(payload),
    ensures
        content_of(extent, channels, samples.update(i, payload)) == content_of(
            extent,
            channels,
            samples,
        ),
{
    assert(content_words(extent, channels, samples.update(i, payload)) =~= content_words(
        extent,
        channels,
        samples,
    ));
}

/// A channel's samples are all counted, once each: as finite or as not.
pub proof fn law_every_sample_is_counted<A: Arithmetic>(
    samples: Seq<u32>,
    channels: int,
    c: int,
    pixels: nat,
)
    requires
        0 <= c < channels,
        pixels * channels <= u64::MAX,
    ensures
        stats_of::<A>(samples, channels, c, (pixels * channels) as nat).finite + stats_of::<A>(
            samples,
            channels,
            c,
            (pixels * channels) as nat,
        ).nonfinite == pixels,
    decreases pixels,
{
    if pixels > 0 {
        let prior = (pixels - 1) as nat;
        assert(pixels * channels == prior * channels + channels) by (nonlinear_arith)
            requires
                prior == pixels - 1,
        ;
        assert(0 <= prior * channels) by (nonlinear_arith)
            requires
                0 <= prior,
                0 <= channels,
        ;
        law_every_sample_is_counted::<A>(samples, channels, c, prior);
        lemma_row_counts::<A>(samples, channels, c, prior, channels);
    } else {
        assert(0 * channels == 0);
    }
}

/// Among the first samples of one pixel a channel counts its own once it is reached.
proof fn lemma_row_counts<A: Arithmetic>(samples: Seq<u32>, channels: int, c: int, pixel: nat, k: int)
    requires
        0 <= c < channels,
        0 <= k <= channels,
        pixel * channels + k <= u64::MAX,
    ensures
        ({
            let start = stats_of::<A>(samples, channels, c, (pixel * channels) as nat);
            let end = stats_of::<A>(samples, channels, c, (pixel * channels + k) as nat);
            end.finite + end.nonfinite == start.finite + start.nonfinite + (if c < k {
                1int
            } else {
                0
            })
        }),
    decreases k,
{
    assert(0 <= pixel * channels) by (nonlinear_arith)
        requires
            0 <= pixel,
            0 <= channels,
    ;
    if k > 0 {
        lemma_row_counts::<A>(samples, channels, c, pixel, k - 1);
        let n = (pixel * channels + k) as nat;
        lemma_counts::<A>(samples, channels, c, (n - 1) as nat);
        assert((n - 1) % channels == k - 1) by {
            vstd::arithmetic::div_mod::lemma_fundamental_div_mod_converse(
                n - 1,
                channels,
                pixel as int,
                k - 1,
            );
        }
    }
}

/// The range of a channel spans its finite samples and no more: every one of them lies in it, and
/// both its ends are among them. A sample that is not finite leaves the range alone.
pub proof fn law_range_spans_finite_samples<A: Arithmetic>(
    samples: Seq<u32>,
    channels: int,
    c: int,
    n: nat,
)
    ensures
        forall|i: int|
            0 <= i < n && i % channels == c && sample_finite(#[trigger] samples[i]) ==> {
                let stats = stats_of::<A>(samples, channels, c, n);
                &&& stats.min matches Some(m) && sample_at_most(m, samples[i])
                &&& stats.max matches Some(m) && sample_at_most(samples[i], m)
            },
        stats_of::<A>(samples, channels, c, n).min matches Some(m) ==> exists|i: int|
            0 <= i < n && i % channels == c && sample_finite(m) && #[trigger] samples[i] == m,
        stats_of::<A>(samples, channels, c, n).max matches Some(m) ==> exists|i: int|
            0 <= i < n && i % channels == c && sample_finite(m) && #[trigger] samples[i] == m,
        stats_of::<A>(samples, channels, c, n).min is Some <==> stats_of::<A>(
            samples,
            channels,
            c,
            n,
        ).max is Some,
    decreases n,
{
    if n > 0 {
        law_range_spans_finite_samples::<A>(samples, channels, c, (n - 1) as nat);
    }
}

} // verus!
